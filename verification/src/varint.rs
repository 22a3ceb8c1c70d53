//! Variable-length integer codec: unsigned LEB128 and zig-zag signed
//! variants, read and write.

use vstd::prelude::*;

verus! {

use crate::buffer::Reader;
use crate::error::DecodeError;
use vstd::arithmetic::div_mod::{
    lemma_div_denominator,
    lemma_mod_multiples_vanish,
    lemma_multiply_divide_lt,
    lemma_small_mod,
};
use vstd::arithmetic::mul::{
    lemma_mul_inequality,
    lemma_mul_is_associative,
    lemma_mul_is_commutative,
};
use vstd::arithmetic::power2::{lemma2_to64, lemma2_to64_rest, lemma_pow2_adds, lemma_pow2_pos, pow2};
use vstd::bits::{lemma_u64_pow2_no_overflow, lemma_u64_shl_is_mul};

/// A full 64-bit value never takes more than 10 varint bytes.
pub const MAX_VARINT_LENGTH: usize = 10;

/// The byte announces that more varint bytes follow.
pub open spec fn has_cont_bit(b: u8) -> bool {
    b >= 0x80
}

/// Every byte of `s` before index `n` has the continuation bit set.
pub open spec fn all_cont(s: Seq<u8>, n: int) -> bool {
    forall|i: int| 0 <= i < n ==> has_cont_bit(#[trigger] s[i])
}

/// The LEB128 encoding of `x`: 7 payload bits per byte, low bits first,
/// the high bit set on every byte but the last.
pub open spec fn uvarint_bytes(x: u64) -> Seq<u8>
    decreases x,
{
    if x < 0x80 {
        seq![x as u8]
    } else {
        seq![(x % 0x80 + 0x80) as u8] + uvarint_bytes(x / 0x80)
    }
}

/// One past the index of the first byte of `s` without the continuation
/// bit, or `s.len() + 1` when every byte of `s` has it. In the first case
/// this is the number of bytes one varint read consumes.
pub open spec fn uvarint_end(s: Seq<u8>) -> int
    decreases s.len(),
{
    if s.len() == 0 {
        1
    } else if !has_cont_bit(s[0]) {
        1
    } else {
        1 + uvarint_end(s.drop_first())
    }
}

/// The base-128 value of the low 7 bits of the first `n` bytes of `s`,
/// least significant byte first.
pub open spec fn uvarint_partial(s: Seq<u8>, n: int) -> nat
    decreases n,
{
    if n <= 0 {
        0
    } else {
        uvarint_partial(s, n - 1) + ((s[n - 1] % 0x80) as nat) * pow2((7 * (n - 1)) as nat)
    }
}

/// Reading an unsigned varint from `s` succeeds: a terminating byte stands
/// within bounds and within the first 10 bytes, and a tenth byte carries
/// at most the one payload bit that still fits below bit 64.
pub open spec fn uvarint_ok(s: Seq<u8>) -> bool {
    s.len() > 0 && uvarint_end(s) <= 10 && uvarint_end(s) <= s.len() && (uvarint_end(s) == 10
        ==> s[9] <= 1)
}

/// The value a successful unsigned varint read over `s` yields: the
/// base-128 sum of the consumed bytes. Whenever `uvarint_ok` holds the sum
/// fits in 64 bits; the modulus only totalizes the definition.
pub open spec fn uvarint_value(s: Seq<u8>) -> u64 {
    (uvarint_partial(s, uvarint_end(s)) % pow2(64)) as u64
}

/// The error a failed unsigned varint read over `s` yields: `EOF` on an
/// already-empty buffer, `OverFlow64Bit` when ten bytes pass without a
/// terminator or a tenth byte's bits would overflow 64 bits,
/// `UnexpectedEof` when the buffer ends mid-sequence.
pub open spec fn uvarint_err(s: Seq<u8>) -> DecodeError {
    if s.len() == 0 {
        DecodeError::EOF
    } else if s.len() >= 10 {
        DecodeError::OverFlow64Bit
    } else {
        DecodeError::UnexpectedEof
    }
}

/// The zig-zag image of `x`: non-negative values map to even numbers,
/// negative values to odd ones, keeping small magnitudes small.
pub open spec fn zigzag(x: i64) -> u64 {
    if x >= 0 {
        (2 * x) as u64
    } else {
        (-2 * x - 1) as u64
    }
}

/// The inverse of [`zigzag`].
pub open spec fn unzigzag(u: u64) -> i64 {
    if u % 2 == 0 {
        (u / 2) as i64
    } else {
        (-((u / 2) as int) - 1) as i64
    }
}

/// The signed varint encoding: LEB128 of the zig-zag image.
pub open spec fn varint_bytes(x: i64) -> Seq<u8> {
    uvarint_bytes(zigzag(x))
}

/// Where the first terminator of `s` stands, `uvarint_end` finds it.
pub proof fn lemma_uvarint_end_bounds(s: Seq<u8>)
    ensures
        1 <= uvarint_end(s) <= s.len() + 1,
        uvarint_end(s) <= s.len() ==> !has_cont_bit(s[uvarint_end(s) - 1]),
        all_cont(s, uvarint_end(s) - 1),
    decreases s.len(),
{
    if s.len() == 0 {
    } else if !has_cont_bit(s[0]) {
    } else {
        lemma_uvarint_end_bounds(s.drop_first());
        assert forall|i: int| 0 <= i < uvarint_end(s) - 1 implies has_cont_bit(#[trigger] s[i]) by {
            if i > 0 {
                assert(s[i] == s.drop_first()[i - 1]);
            }
        }
    }
}

/// The first terminator determines `uvarint_end` exactly.
proof fn lemma_uvarint_end_at(s: Seq<u8>, i: int)
    requires
        0 <= i < s.len(),
        all_cont(s, i),
        !has_cont_bit(s[i]),
    ensures
        uvarint_end(s) == i + 1,
    decreases i,
{
    if i > 0 {
        assert(has_cont_bit(s[0]));
        assert forall|j: int| 0 <= j < i - 1 implies has_cont_bit(#[trigger] s.drop_first()[j]) by {
            assert(s.drop_first()[j] == s[j + 1]);
        }
        assert(s.drop_first()[i - 1] == s[i]);
        lemma_uvarint_end_at(s.drop_first(), i - 1);
    }
}

/// While only continuation bytes have been seen, the end lies further on.
proof fn lemma_all_cont_end(s: Seq<u8>, n: int)
    requires
        0 <= n <= s.len(),
        all_cont(s, n),
    ensures
        uvarint_end(s) > n,
    decreases n,
{
    lemma_uvarint_end_bounds(s);
    if n > 0 {
        assert(has_cont_bit(s[0]));
        assert forall|j: int| 0 <= j < n - 1 implies has_cont_bit(#[trigger] s.drop_first()[j]) by {
            assert(s.drop_first()[j] == s[j + 1]);
        }
        lemma_all_cont_end(s.drop_first(), n - 1);
    }
}

/// The partial base-128 sum of `n` bytes stays under `pow2(7 * n)`.
proof fn lemma_uvarint_partial_bound(s: Seq<u8>, n: int)
    requires
        n >= 0,
    ensures
        uvarint_partial(s, n) < pow2((7 * n) as nat),
    decreases n,
{
    if n == 0 {
        lemma_pow2_pos(0);
        assert(pow2(0) == 1) by {
            lemma2_to64();
        }
    } else {
        lemma_uvarint_partial_bound(s, n - 1);
        let p = pow2((7 * (n - 1)) as nat);
        lemma_pow2_adds((7 * (n - 1)) as nat, 7);
        assert(pow2(7) == 0x80) by {
            lemma2_to64();
        }
        assert(((s[n - 1] % 0x80) as nat) * p <= 0x7f * p) by {
            lemma_mul_inequality((s[n - 1] % 0x80) as int, 0x7f, p as int);
        }
        assert(pow2((7 * n) as nat) == 0x80 * p);
    }
}

/// Prepending a byte shifts the partial base-128 sum up by one digit.
proof fn lemma_uvarint_partial_cons(b: u8, t: Seq<u8>, n: int)
    requires
        0 <= n <= t.len(),
    ensures
        uvarint_partial(seq![b] + t, n + 1) == (b % 0x80) as nat + 0x80 * uvarint_partial(t, n),
    decreases n,
{
    let s = seq![b] + t;
    if n == 0 {
        assert(pow2(0) == 1) by {
            lemma2_to64();
        }
        assert(s[0] == b);
        assert(uvarint_partial(s, 0) == 0);
        assert(uvarint_partial(t, 0) == 0);
        assert(uvarint_partial(s, 1) == ((s[0] % 0x80) as nat) * pow2(0));
        assert(((b % 0x80) as nat) * pow2(0) == (b % 0x80) as nat) by (nonlinear_arith)
            requires
                pow2(0) == 1,
        ;
    } else {
        lemma_uvarint_partial_cons(b, t, n - 1);
        assert(s[n] == t[n - 1]);
        lemma_pow2_adds(7, (7 * (n - 1)) as nat);
        assert(pow2(7) == 0x80) by {
            lemma2_to64();
        }
        let w = (t[n - 1] % 0x80) as int;
        let p = pow2((7 * (n - 1)) as nat) as int;
        assert(w * (0x80 * p) == 0x80 * (w * p)) by {
            lemma_mul_is_associative(w, 0x80, p);
            lemma_mul_is_commutative(w, 0x80);
            lemma_mul_is_associative(0x80, w, p);
        }
    }
}

/// The encoding of `x` is a well-formed varint whose digits sum back to `x`.
proof fn lemma_uvarint_bytes_wf(x: u64)
    ensures
        1 <= uvarint_bytes(x).len(),
        all_cont(uvarint_bytes(x), uvarint_bytes(x).len() - 1),
        !has_cont_bit(uvarint_bytes(x)[uvarint_bytes(x).len() - 1]),
        uvarint_partial(uvarint_bytes(x), uvarint_bytes(x).len() as int) == x,
    decreases x,
{
    if x < 0x80 {
        assert(pow2(0) == 1) by {
            lemma2_to64();
        }
        let s = uvarint_bytes(x);
        assert(s[0] == x as u8);
        assert(uvarint_partial(s, 0) == 0);
        assert(uvarint_partial(s, 1) == ((s[0] % 0x80) as nat) * pow2(0));
        assert((((x as u8) % 0x80) as nat) * pow2(0) == ((x as u8) % 0x80) as nat)
            by (nonlinear_arith)
            requires
                pow2(0) == 1,
        ;
    } else {
        lemma_uvarint_bytes_wf(x / 0x80);
        let b = (x % 0x80 + 0x80) as u8;
        let t = uvarint_bytes(x / 0x80);
        let s = seq![b] + t;
        assert(has_cont_bit(b));
        assert forall|i: int| 0 <= i < s.len() - 1 implies has_cont_bit(#[trigger] s[i]) by {
            if i > 0 {
                assert(s[i] == t[i - 1]);
            }
        }
        assert(s[s.len() - 1] == t[t.len() - 1]);
        lemma_uvarint_partial_cons(b, t, t.len() as int);
        assert((b % 0x80) as nat == x % 0x80);
        assert(x % 0x80 + 0x80 * (x / 0x80) == x) by (nonlinear_arith);
    }
}

/// A value under `pow2(7 * n)` encodes in at most `n` bytes.
proof fn lemma_uvarint_bytes_len_bound(x: u64, n: int)
    requires
        1 <= n,
        x < pow2((7 * n) as nat),
    ensures
        uvarint_bytes(x).len() <= n,
    decreases n,
{
    if x >= 0x80 {
        assert(pow2(7) == 0x80) by {
            lemma2_to64();
        }
        if n == 1 {
            assert(false);
        } else {
            lemma_pow2_adds(7, (7 * (n - 1)) as nat);
            assert(x < 0x80 * pow2((7 * (n - 1)) as nat));
            assert(x / 0x80 < pow2((7 * (n - 1)) as nat)) by (nonlinear_arith)
                requires
                    x < 0x80 * pow2((7 * (n - 1)) as nat),
            ;
            lemma_uvarint_bytes_len_bound(x / 0x80, n - 1);
        }
    }
}

/// The last byte of the encoding of `x` holds its highest base-128 digit.
proof fn lemma_uvarint_bytes_last(x: u64)
    ensures
        uvarint_bytes(x).last() as nat == (x as nat) / pow2(
            (7 * (uvarint_bytes(x).len() - 1)) as nat,
        ),
    decreases x,
{
    if x < 0x80 {
        assert(pow2(0) == 1) by {
            lemma2_to64();
        }
        assert((x as nat) / pow2(0) == x as nat) by (nonlinear_arith)
            requires
                pow2(0) == 1,
        ;
    } else {
        lemma_uvarint_bytes_last(x / 0x80);
        let t = uvarint_bytes(x / 0x80);
        let s = uvarint_bytes(x);
        lemma_uvarint_bytes_wf(x / 0x80);
        assert(s.last() == t.last());
        let p = pow2((7 * (t.len() - 1)) as nat);
        lemma_pow2_pos((7 * (t.len() - 1)) as nat);
        lemma_pow2_adds(7, (7 * (t.len() - 1)) as nat);
        assert(pow2(7) == 0x80) by {
            lemma2_to64();
        }
        assert(((x as int) / 0x80) / (p as int) == (x as int) / (0x80 * (p as int))) by {
            lemma_div_denominator(x as int, 0x80, p as int);
        }
        assert(s.len() - 1 == t.len());
        assert(pow2((7 * (s.len() - 1)) as nat) == 0x80 * p);
        assert(t.last() as nat == ((x / 0x80) as nat) / p);
        assert((x / 0x80) as int == (x as int) / 0x80);
        assert(s.last() as nat == (x as nat) / (0x80 * p));
    }
}

/// Unsigned varint round trip: reading the encoding of any 64-bit value
/// yields that value back, and the encoding never exceeds 10 bytes.
pub proof fn lemma_uvarint_round_trip(x: u64)
    ensures
        uvarint_ok(uvarint_bytes(x)),
        uvarint_end(uvarint_bytes(x)) == uvarint_bytes(x).len(),
        uvarint_value(uvarint_bytes(x)) == x,
        1 <= uvarint_bytes(x).len() <= 10,
{
    let s = uvarint_bytes(x);
    lemma_uvarint_bytes_wf(x);
    assert(pow2(64) == 0x10000000000000000 && pow2(7) == 0x80) by {
        lemma2_to64();
        lemma2_to64_rest();
    }
    assert(x < pow2((7 * 10) as nat)) by {
        lemma_pow2_adds(64, 6);
        vstd::arithmetic::power2::lemma_pow2_strictly_increases(64, 70);
    }
    lemma_uvarint_bytes_len_bound(x, 10);
    lemma_uvarint_end_at(s, s.len() - 1);
    lemma_small_mod(x as nat, pow2(64));
    if s.len() == 10 {
        lemma_uvarint_bytes_last(x);
        assert(pow2(63) == 0x8000000000000000) by {
            lemma2_to64_rest();
        }
        assert((x as int) < pow2(63) * 2) by {
            lemma_pow2_adds(63, 1);
            lemma2_to64();
        }
        assert((x as nat) / pow2(63) < 2) by {
            lemma_multiply_divide_lt(x as int, pow2(63) as int, 2);
        }
        assert(s[9] == s.last());
    }
}

/// Zig-zag and back is the identity.
pub proof fn lemma_zigzag_round_trip(x: i64)
    ensures
        unzigzag(zigzag(x)) == x,
{
    if x >= 0 {
        assert((2 * x) % 2 == 0 && (2 * x) / 2 == x) by (nonlinear_arith);
    } else {
        assert((-2 * x - 1) % 2 == 1 && (-2 * x - 1) / 2 == -x - 1) by (nonlinear_arith);
    }
}

/// The sign of `x` survives in the low bit of its zig-zag image.
pub proof fn lemma_zigzag_parity(x: i64)
    ensures
        (x < 0) <==> (zigzag(x) % 2 == 1),
{
    lemma_zigzag_round_trip(x);
    if x >= 0 {
        assert((2 * x) % 2 == 0) by (nonlinear_arith);
    } else {
        assert((-2 * x - 1) % 2 == 1) by (nonlinear_arith);
    }
}

/// The signed encoding of -1 is the unsigned encoding of 1.
pub proof fn lemma_varint_minus_one()
    ensures
        varint_bytes(-1i64) == uvarint_bytes(1u64),
{
    assert(zigzag(-1i64) == 1u64);
}

/// Signed varint round trip: zig-zag, LEB128 and back yields the value.
pub proof fn lemma_varint_round_trip(x: i64)
    ensures
        uvarint_ok(varint_bytes(x)),
        unzigzag(uvarint_value(varint_bytes(x))) == x,
        1 <= varint_bytes(x).len() <= 10,
{
    lemma_uvarint_round_trip(zigzag(x));
    lemma_zigzag_round_trip(x);
}

/// The partial base-128 sum reads only the first `n` bytes.
proof fn lemma_uvarint_partial_agree(s: Seq<u8>, t: Seq<u8>, n: int)
    requires
        0 <= n <= s.len(),
    ensures
        uvarint_partial(s + t, n) == uvarint_partial(s, n),
    decreases n,
{
    if n > 0 {
        lemma_uvarint_partial_agree(s, t, n - 1);
        assert((s + t)[n - 1] == s[n - 1]);
    }
}

/// A varint at the head of a longer buffer parses exactly as it does
/// alone, and the bytes behind it stay untouched.
pub proof fn lemma_uvarint_prefix(s: Seq<u8>, t: Seq<u8>)
    requires
        uvarint_ok(s),
    ensures
        uvarint_ok(s + t),
        uvarint_end(s + t) == uvarint_end(s),
        uvarint_value(s + t) == uvarint_value(s),
        (s + t).skip(uvarint_end(s)) == s.skip(uvarint_end(s)) + t,
{
    let e = uvarint_end(s);
    lemma_uvarint_end_bounds(s);
    assert((s + t)[e - 1] == s[e - 1]);
    assert forall|i: int| 0 <= i < e - 1 implies has_cont_bit(#[trigger] (s + t)[i]) by {
        assert((s + t)[i] == s[i]);
    }
    lemma_uvarint_end_at(s + t, e - 1);
    lemma_uvarint_partial_agree(s, t, e);
    if e == 10 {
        assert((s + t)[9] == s[9]);
    }
    assert((s + t).skip(e) =~= s.skip(e) + t);
}

/// Overflow detection: a stream of ten or more bytes that all carry the
/// continuation bit fails with `OverFlow64Bit`.
pub proof fn lemma_varint_overflow(s: Seq<u8>)
    requires
        s.len() >= 10,
        all_cont(s, 10),
    ensures
        !uvarint_ok(s),
        uvarint_err(s) == DecodeError::OverFlow64Bit,
{
    lemma_all_cont_end(s, 10);
}

/// One loop step of the unsigned varint reader: or-ing the next 7 payload
/// bits into place extends the partial sum by one digit.
proof fn lemma_accumulate_step(s: Seq<u8>, k: int, x: u64, v: u8)
    requires
        0 <= k <= 9,
        k < s.len(),
        x as nat == uvarint_partial(s, k),
        v == s[k],
    ensures
        (x | (((v as u64) & 0x7f) << ((7 * k) as u32))) as nat == uvarint_partial(s, k + 1) % pow2(
            64,
        ),
        k < 9 ==> uvarint_partial(s, k + 1) % pow2(64) == uvarint_partial(s, k + 1),
{
    let shift = (7 * k) as u32;
    let w = (v as u64) & 0x7f;
    lemma_uvarint_partial_bound(s, k);
    lemma2_to64();
    lemma2_to64_rest();
    lemma_u64_pow2_no_overflow((7 * k) as nat);
    assert(1u64 << shift == pow2(shift as nat)) by {
        lemma_u64_shl_is_mul(1u64, shift as u64);
    }
    assert((v as u64) & 0x7f == (v as u64) % 0x80) by (bit_vector);
    assert(w == (v % 0x80) as u64);
    assert(x < 1u64 << shift);
    if k < 9 {
        // No truncation: the new digit fits under bit 63.
        assert(pow2(shift as nat) <= pow2(56)) by {
            if shift < 56 {
                vstd::arithmetic::power2::lemma_pow2_strictly_increases(shift as nat, 56);
            }
        }
        assert(w * pow2(shift as nat) <= 0x7f * pow2(56)) by {
            lemma_mul_inequality(w as int, 0x7f, pow2(shift as nat) as int);
            lemma_mul_inequality(pow2(shift as nat) as int, pow2(56) as int, 0x7f);
            lemma_mul_is_commutative(0x7f, pow2(shift as nat) as int);
            lemma_mul_is_commutative(0x7f, pow2(56) as int);
        }
        lemma_pow2_adds(shift as nat, 7);
        assert(w << shift == w * pow2(shift as nat)) by {
            lemma_u64_shl_is_mul(w, shift as u64);
        }
        assert((x | (w << shift)) == x + (w << shift)) by (bit_vector)
            requires
                x < 1u64 << shift,
                w <= 0x7f,
                shift <= 56,
        ;
        lemma_small_mod(uvarint_partial(s, k + 1), pow2(64));
        vstd::arithmetic::power2::lemma_pow2_strictly_increases((7 * (k + 1)) as nat, 64);
        lemma_uvarint_partial_bound(s, k + 1);
    } else {
        // shift == 63: only the low payload bit lands below bit 64; the
        // reader rejects a terminator that carries more.
        assert((x | (w << 63)) == x + (w % 2) * 0x8000000000000000) by (bit_vector)
            requires
                x < 0x8000000000000000u64,
                w <= 0x7f,
        ;
        let p63 = pow2(63) as int;
        let q = ((v % 0x80) / 2) as int;
        let r = ((v % 0x80) % 2) as int;
        assert(pow2(63) == 0x8000000000000000 && pow2(64) == 0x10000000000000000);
        assert((v % 0x80) as int == 2 * q + r);
        assert(uvarint_partial(s, 10) == x + ((v % 0x80) as nat) * pow2(63));
        assert(((v % 0x80) as int) * p63 == q * (2 * p63) + r * p63) by (nonlinear_arith)
            requires
                (v % 0x80) as int == 2 * q + r,
        ;
        assert(uvarint_partial(s, 10) as int == pow2(64) * q + (x + r * p63));
        assert((pow2(64) as int * q + (x + r * p63)) % (pow2(64) as int) == (x + r * p63) % (pow2(
            64,
        ) as int)) by {
            lemma_mod_multiples_vanish(q, x + r * p63, pow2(64) as int);
        }
        assert(r * p63 <= p63) by (nonlinear_arith)
            requires
                0 <= r <= 1,
                p63 > 0,
        ;
        lemma_small_mod((x + r * p63) as nat, pow2(64));
        assert(w % 2 == r);
    }
}

/// Read one unsigned LEB128 varint from the cursor. On success the cursor
/// stands just past the terminating byte; trailing bytes stay unread.
pub fn read_uvarint<'a>(buf: &mut Reader<'a>) -> (r: Result<u64, DecodeError>)
    requires
        old(buf).inv(),
    ensures
        final(buf).inv(),
        final(buf).all_bytes() == old(buf).all_bytes(),
        match r {
            Ok(x) => uvarint_ok(old(buf).rest()) && x == uvarint_value(old(buf).rest())
                && final(buf).rest() == old(buf).rest().skip(uvarint_end(old(buf).rest())),
            Err(e) => !uvarint_ok(old(buf).rest()) && e == uvarint_err(old(buf).rest()) && (e
                == DecodeError::EOF ==> *final(buf) == *old(buf)),
        },
{
    let ghost s = old(buf).rest();
    let mut x: u64 = 0;
    let mut shift: u32 = 0;
    if buf.is_end() {
        return Err(DecodeError::EOF);
    }
    let ghost mut k: int = 0;
    loop
        invariant
            buf.inv(),
            buf.all_bytes() == old(buf).all_bytes(),
            s == old(buf).rest(),
            s.len() > 0,
            0 <= k <= 9,
            k <= s.len(),
            shift == 7 * k,
            buf.rest() == s.skip(k),
            all_cont(s, k),
            x as nat == uvarint_partial(s, k),
        decreases 10 - k,
    {
        match buf.read_byte() {
            Ok(v) => {
                proof {
                    assert(s.skip(k)[0] == s[k]);
                    lemma_accumulate_step(s, k, x, v);
                }
                let b64: u64 = (v as u64) & 0x7f;
                x = x | (b64 << shift);
                shift = shift + 7;
                if v & 0x80 == 0 {
                    proof {
                        assert(!has_cont_bit(v)) by (bit_vector)
                            requires
                                v & 0x80 == 0,
                        ;
                        lemma_uvarint_end_at(s, k);
                        assert(buf.rest() =~= s.skip(k + 1));
                    }
                    if shift >= 64 && v > 1 {
                        // The tenth byte carries payload bits that would
                        // land at and above bit 64.
                        proof {
                            assert(k == 9);
                        }
                        return Err(DecodeError::OverFlow64Bit);
                    }
                    return Ok(x);
                }
                if shift >= 64 {
                    proof {
                        assert(has_cont_bit(v)) by (bit_vector)
                            requires
                                v & 0x80 != 0,
                        ;
                        assert(k == 9);
                        assert(all_cont(s, 10));
                        lemma_all_cont_end(s, 10);
                    }
                    return Err(DecodeError::OverFlow64Bit);
                }
                proof {
                    assert(has_cont_bit(v)) by (bit_vector)
                        requires
                            v & 0x80 != 0,
                    ;
                    assert(buf.rest() =~= s.skip(k + 1));
                    k = k + 1;
                }
            },
            Err(_) => {
                proof {
                    assert(s.skip(k).len() == 0);
                    lemma_all_cont_end(s, k);
                }
                return Err(DecodeError::UnexpectedEof);
            },
        }
    }
}

/// Read one zig-zag signed varint from the cursor.
pub fn read_varint<'a>(buf: &mut Reader<'a>) -> (r: Result<i64, DecodeError>)
    requires
        old(buf).inv(),
    ensures
        final(buf).inv(),
        final(buf).all_bytes() == old(buf).all_bytes(),
        match r {
            Ok(x) => uvarint_ok(old(buf).rest()) && x == unzigzag(
                uvarint_value(old(buf).rest()),
            ) && final(buf).rest() == old(buf).rest().skip(uvarint_end(old(buf).rest())),
            Err(e) => !uvarint_ok(old(buf).rest()) && e == uvarint_err(old(buf).rest()),
        },
{
    let ux = match read_uvarint(buf) {
        Ok(u) => u,
        Err(e) => {
            return Err(e);
        },
    };
    let mut x: i64 = (ux >> 1) as i64;
    if ux & 1 != 0 {
        proof {
            assert(ux % 2 == 1 && ux >> 1 == ux / 2) by (bit_vector)
                requires
                    ux & 1 != 0,
            ;
            assert(!((ux / 2) as i64) == -((ux / 2) as int) - 1) by (bit_vector);
        }
        x = !x;
    } else {
        proof {
            assert(ux % 2 == 0 && ux >> 1 == ux / 2) by (bit_vector)
                requires
                    ux & 1 == 0,
            ;
        }
    }
    Ok(x)
}

/// Append the LEB128 encoding of `x` to `buf`.
pub fn write_uvarint(x: u64, buf: &mut Vec<u8>)
    ensures
        final(buf)@ == old(buf)@ + uvarint_bytes(x),
{
    let mut v: u64 = x;
    while v >= 0x80
        invariant
            buf@ + uvarint_bytes(v) == old(buf)@ + uvarint_bytes(x),
        decreases v,
    {
        let ghost pre = buf@;
        let ghost v0 = v;
        let b: u8 = #[verifier::truncate] (v as u8) | 0x80;
        proof {
            assert((#[verifier::truncate] (v as u8) | 0x80) == (v % 0x80 + 0x80) as u8)
                by (bit_vector);
            assert(v >> 7 == v / 0x80) by (bit_vector);
        }
        buf.push(b);
        v = v >> 7;
        proof {
            assert(uvarint_bytes(v0) == seq![b] + uvarint_bytes(v));
            assert(buf@ + uvarint_bytes(v) =~= pre + uvarint_bytes(v0));
        }
    }
    let ghost pre = buf@;
    buf.push(v as u8);
    proof {
        assert(uvarint_bytes(v) == seq![v as u8]);
        assert(buf@ =~= pre + uvarint_bytes(v));
        assert(buf@ =~= old(buf)@ + uvarint_bytes(x));
    }
}

/// The LEB128 encoding of `x` as a fresh byte vector.
pub fn encode_uvarint(x: u64) -> (r: Vec<u8>)
    ensures
        r@ == uvarint_bytes(x),
{
    let mut buf: Vec<u8> = Vec::with_capacity(MAX_VARINT_LENGTH);
    write_uvarint(x, &mut buf);
    proof {
        assert(buf@ =~= uvarint_bytes(x));
    }
    buf
}

/// Append the zig-zag signed encoding of `x` to `buf`.
pub fn write_varint(x: i64, buf: &mut Vec<u8>)
    ensures
        final(buf)@ == old(buf)@ + varint_bytes(x),
{
    let mut ux: u64 = (x as u64) << 1;
    if x < 0 {
        ux = !ux;
        proof {
            assert(!((x as u64) << 1) == -2 * x - 1) by (bit_vector)
                requires
                    x < 0,
            ;
        }
    } else {
        proof {
            assert(((x as u64) << 1) == 2 * x) by (bit_vector)
                requires
                    x >= 0,
            ;
        }
    }
    write_uvarint(ux, buf);
}

/// The zig-zag signed encoding of `x` as a fresh byte vector.
pub fn encode_varint(x: i64) -> (r: Vec<u8>)
    ensures
        r@ == varint_bytes(x),
{
    let mut buf: Vec<u8> = Vec::with_capacity(MAX_VARINT_LENGTH);
    write_varint(x, &mut buf);
    proof {
        assert(buf@ =~= varint_bytes(x));
    }
    buf
}

} // verus!
