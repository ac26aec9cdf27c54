//! Bit-level view of byte strings.
//!
//! Bits are numbered most significant first: bit `0` of a string is the
//! highest bit of its first byte, bit `7` its lowest, bit `8` the highest
//! bit of the second byte, and so on.  Bits outside the string read as zero.
use vstd::prelude::*;

verus! {

/// The byte at index `i`, or zero outside the string.
pub open spec fn byte_at(bytes: Seq<u8>, i: int) -> u8 {
    if 0 <= i < bytes.len() {
        bytes[i]
    } else {
        0
    }
}

/// Bit `t` of a byte, `t == 0` being the most significant bit.
pub open spec fn byte_bit(b: u8, t: int) -> bool {
    0 <= t < 8 && (b >> ((7 - t) as u8)) & 1u8 == 1u8
}

/// Bit `i` of a byte string (zero outside the string, negative `i` included).
pub open spec fn bit_of(bytes: Seq<u8>, i: int) -> bool {
    byte_bit(byte_at(bytes, i / 8), i % 8)
}

/// The eight bits that follow bit `r` of `hi`, continuing into `lo`.
pub open spec fn combine(hi: u8, lo: u8, r: int) -> u8 {
    if r <= 0 {
        hi
    } else {
        ((hi << (r as u8)) | (lo >> ((8 - r) as u8))) as u8
    }
}

/// The byte made of bits `start .. start + 8` of a byte string.
pub open spec fn window(bytes: Seq<u8>, start: int) -> u8 {
    combine(byte_at(bytes, start / 8), byte_at(bytes, start / 8 + 1), start % 8)
}

/// Number of bytes needed to hold `n` bits.
pub open spec fn bytes_for_bits(n: int) -> int {
    (n + 7) / 8
}

proof fn lemma_byte_bit_u8(b: u8, t: u8)
    requires
        t < 8,
    ensures
        byte_bit(b, t as int) == ((b >> (7 - t) as u8) & 1u8 == 1u8),
{
}

proof fn lemma_combine_bits_bv(hi: u8, lo: u8, r: u8, t: u8)
    by (bit_vector)
    requires
        1 <= r < 8,
        t < 8,
    ensures
        (((((hi << r) | (lo >> (8 - r) as u8)) as u8) >> (7 - t) as u8) & 1u8 == 1u8) == (if t + r
            < 8 {
            (hi >> (7 - t - r) as u8) & 1u8 == 1u8
        } else {
            (lo >> (15 - t - r) as u8) & 1u8 == 1u8
        }),
{
}

/// Bit `t` of `combine(hi, lo, r)` is bit `t + r` of the pair `hi, lo`.
pub proof fn lemma_combine_bit(hi: u8, lo: u8, r: int, t: int)
    requires
        0 <= r < 8,
        0 <= t < 8,
    ensures
        byte_bit(combine(hi, lo, r), t) == if t + r < 8 {
            byte_bit(hi, t + r)
        } else {
            byte_bit(lo, t + r - 8)
        },
{
    if r > 0 {
        lemma_combine_bits_bv(hi, lo, r as u8, t as u8);
        lemma_byte_bit_u8(combine(hi, lo, r), t as u8);
        if t + r < 8 {
            lemma_byte_bit_u8(hi, (t + r) as u8);
        } else {
            lemma_byte_bit_u8(lo, (t + r - 8) as u8);
        }
    }
}

/// Bit `t` of `window(bytes, start)` is bit `start + t` of the string.
pub proof fn lemma_window_bit(bytes: Seq<u8>, start: int, t: int)
    requires
        0 <= t < 8,
    ensures
        byte_bit(window(bytes, start), t) == bit_of(bytes, start + t),
{
    let h = start / 8;
    let r = start % 8;
    assert(start == 8 * h + r);
    lemma_combine_bit(byte_at(bytes, h), byte_at(bytes, h + 1), r, t);
    if t + r < 8 {
        assert((start + t) / 8 == h);
        assert((start + t) % 8 == t + r);
    } else {
        assert((start + t) / 8 == h + 1);
        assert((start + t) % 8 == t + r - 8);
    }
}

proof fn lemma_or_bits_bv(x: u8, y: u8, t: u8)
    by (bit_vector)
    requires
        t < 8,
    ensures
        ((((x | y) >> (7 - t) as u8) & 1u8 == 1u8) == (((x >> (7 - t) as u8) & 1u8 == 1u8) || ((y
            >> (7 - t) as u8) & 1u8 == 1u8))),
{
}

/// Bits of `x | y` are the disjunction of the bits of `x` and `y`.
pub proof fn lemma_or_bit(x: u8, y: u8, t: int)
    ensures
        byte_bit(x | y, t) == (byte_bit(x, t) || byte_bit(y, t)),
{
    if 0 <= t < 8 {
        lemma_or_bits_bv(x, y, t as u8);
        lemma_byte_bit_u8(x | y, t as u8);
        lemma_byte_bit_u8(x, t as u8);
        lemma_byte_bit_u8(y, t as u8);
    }
}

proof fn lemma_mask_bits_bv(x: u8, m: u8, t: u8)
    by (bit_vector)
    requires
        t < 8,
        m < 8,
    ensures
        (((x & (0xffu8 >> m)) >> (7 - t) as u8) & 1u8 == 1u8) == (t >= m && ((x >> (7 - t) as u8)
            & 1u8 == 1u8)),
{
}

/// Masking with `0xff >> m` clears the first `m` bits of a byte.
pub proof fn lemma_mask_bit(x: u8, m: int, t: int)
    requires
        0 <= m < 8,
    ensures
        byte_bit(x & (0xffu8 >> (m as u8)), t) == (t >= m && byte_bit(x, t)),
{
    if 0 <= t < 8 {
        lemma_mask_bits_bv(x, m as u8, t as u8);
        lemma_byte_bit_u8(x & (0xffu8 >> (m as u8)), t as u8);
        lemma_byte_bit_u8(x, t as u8);
    }
}

proof fn lemma_byte_eq_bv(x: u8, y: u8)
    by (bit_vector)
    requires
        (x >> 7u8) & 1u8 == (y >> 7u8) & 1u8,
        (x >> 6u8) & 1u8 == (y >> 6u8) & 1u8,
        (x >> 5u8) & 1u8 == (y >> 5u8) & 1u8,
        (x >> 4u8) & 1u8 == (y >> 4u8) & 1u8,
        (x >> 3u8) & 1u8 == (y >> 3u8) & 1u8,
        (x >> 2u8) & 1u8 == (y >> 2u8) & 1u8,
        (x >> 1u8) & 1u8 == (y >> 1u8) & 1u8,
        (x >> 0u8) & 1u8 == (y >> 0u8) & 1u8,
    ensures
        x == y,
{
}

proof fn lemma_bit_is_01_bv(x: u8, s: u8)
    by (bit_vector)
    ensures
        (x >> s) & 1u8 == 0u8 || (x >> s) & 1u8 == 1u8,
{
}

/// Two bytes with the same eight bits are equal.
pub proof fn lemma_byte_eq(x: u8, y: u8)
    requires
        forall|t: int| 0 <= t < 8 ==> byte_bit(x, t) == byte_bit(y, t),
    ensures
        x == y,
{
    assert forall|s: u8| s < 8 implies (x >> s) & 1u8 == (y >> s) & 1u8 by {
        assert(byte_bit(x, 7 - s) == byte_bit(y, 7 - s));
        lemma_byte_bit_u8(x, (7 - s) as u8);
        lemma_byte_bit_u8(y, (7 - s) as u8);
        lemma_bit_is_01_bv(x, s);
        lemma_bit_is_01_bv(y, s);
    }
    assert((x >> 0u8) & 1u8 == (y >> 0u8) & 1u8);
    assert((x >> 1u8) & 1u8 == (y >> 1u8) & 1u8);
    assert((x >> 2u8) & 1u8 == (y >> 2u8) & 1u8);
    assert((x >> 3u8) & 1u8 == (y >> 3u8) & 1u8);
    assert((x >> 4u8) & 1u8 == (y >> 4u8) & 1u8);
    assert((x >> 5u8) & 1u8 == (y >> 5u8) & 1u8);
    assert((x >> 6u8) & 1u8 == (y >> 6u8) & 1u8);
    assert((x >> 7u8) & 1u8 == (y >> 7u8) & 1u8);
    lemma_byte_eq_bv(x, y);
}

/// Two byte strings of one length with the same bits are equal.
pub proof fn lemma_bytes_eq_from_bits(a: Seq<u8>, b: Seq<u8>)
    requires
        a.len() == b.len(),
        forall|i: int| 0 <= i < 8 * a.len() ==> bit_of(a, i) == bit_of(b, i),
    ensures
        a == b,
{
    assert forall|k: int| 0 <= k < a.len() implies a[k] == b[k] by {
        assert forall|t: int| 0 <= t < 8 implies byte_bit(a[k], t) == byte_bit(b[k], t) by {
            let i = 8 * k + t;
            assert(i / 8 == k && i % 8 == t);
            assert(bit_of(a, i) == bit_of(b, i));
        }
        lemma_byte_eq(a[k], b[k]);
    }
    assert(a =~= b);
}

proof fn lemma_or_zero_bv(x: u8)
    by (bit_vector)
    ensures
        x | 0u8 == x,
{
}

/// Or-ing in a zero byte changes nothing.
pub proof fn lemma_or_zero(x: u8)
    ensures
        x | 0u8 == x,
{
    lemma_or_zero_bv(x);
}

proof fn lemma_combine_zero_bv(r: u8)
    by (bit_vector)
    requires
        1 <= r < 8,
    ensures
        ((0u8 << r) | (0u8 >> (8 - r) as u8)) as u8 == 0u8,
{
}

/// A window that lies wholly past the end of a string is zero.
pub proof fn lemma_window_past_end(bytes: Seq<u8>, start: int)
    requires
        start >= 8 * bytes.len(),
    ensures
        window(bytes, start) == 0u8,
{
    assert(start / 8 >= bytes.len());
    if start % 8 > 0 {
        lemma_combine_zero_bv((start % 8) as u8);
    }
}

proof fn lemma_shl_bits_bv(x: u8, s: u8, t: u8)
    by (bit_vector)
    requires
        s < 8,
        t < 8,
    ensures
        ((((x << s) as u8) >> (7 - t) as u8) & 1u8 == 1u8) == (t + s < 8 && ((x >> (7 - t - s) as u8)
            & 1u8 == 1u8)),
{
}

/// Bit `t` of `x << s` is bit `t + s` of `x`.
pub proof fn lemma_shl_bit(x: u8, s: int, t: int)
    requires
        0 <= s < 8,
    ensures
        byte_bit((x << (s as u8)) as u8, t) == (0 <= t && t + s < 8 && byte_bit(x, t + s)),
{
    if 0 <= t < 8 {
        lemma_shl_bits_bv(x, s as u8, t as u8);
        lemma_byte_bit_u8((x << (s as u8)) as u8, t as u8);
        if t + s < 8 {
            lemma_byte_bit_u8(x, (t + s) as u8);
        }
    }
}

proof fn lemma_zero_bits_bv(s: u8)
    by (bit_vector)
    ensures
        (0u8 >> s) & 1u8 == 0u8,
{
}

/// The zero byte has no bit set.
pub proof fn lemma_zero_bit(t: int)
    ensures
        !byte_bit(0u8, t),
{
    if 0 <= t < 8 {
        lemma_zero_bits_bv((7 - t) as u8);
    }
}

proof fn lemma_small_byte_bits_bv(b: u8, s: u8)
    by (bit_vector)
    requires
        b <= 1,
        s < 8,
    ensures
        ((b >> s) & 1u8 == 1u8) == (s == 0 && b == 1),
{
}

/// A byte that is `0` or `1` has only its last bit, if any, set.
pub proof fn lemma_small_byte_bit(b: u8, t: int)
    requires
        b <= 1,
    ensures
        byte_bit(b, t) == (t == 7 && b == 1),
{
    if 0 <= t < 8 {
        lemma_small_byte_bits_bv(b, (7 - t) as u8);
        lemma_byte_bit_u8(b, t as u8);
    }
}

proof fn lemma_probe_bits_bv(x: u8, s: u8)
    by (bit_vector)
    requires
        s < 8,
    ensures
        ((0x80u8 >> s) & x) >> (7 - s) as u8 == (x >> (7 - s) as u8) & 1u8,
        (x >> (7 - s) as u8) & 1u8 <= 1,
{
}

/// Probing bit `t` of a byte with the mask `0x80 >> t` gives `1` when the
/// bit is set and `0` when it is not.
pub proof fn lemma_probe_bit(x: u8, t: int)
    requires
        0 <= t < 8,
    ensures
        ((0x80u8 >> (t as u8)) & x) >> ((7 - t) as u8) == (if byte_bit(x, t) {
            1u8
        } else {
            0u8
        }),
{
    lemma_probe_bits_bv(x, t as u8);
    lemma_byte_bit_u8(x, t as u8);
}

} // verus!
