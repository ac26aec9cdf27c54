//! Laws that tie reads and writes of fields together: reads split, fields
//! carry bit ranges from one string to another, writes only or bits in and
//! so commute.
use vstd::prelude::*;

use crate::bin_field::{
    aligned_term, last_byte_term, law_write_places_field_bits, read_bytes, source_bits,
    write_bytes, BinField,
};
use crate::bits::{bit_of, byte_at, byte_bit, bytes_for_bits, lemma_mask_bit, lemma_window_bit, window};

verus! {

/// `2` to the power `n`.
pub open spec fn two_pow(n: nat) -> nat
    decreases n,
{
    if n == 0 {
        1
    } else {
        2 * two_pow((n - 1) as nat)
    }
}

/// The number a bit string spells, most significant bit first.
pub open spec fn bits_value(s: Seq<bool>) -> nat
    decreases s.len(),
{
    if s.len() == 0 {
        0
    } else {
        bits_value(s.drop_last()) * 2 + if s.last() {
            1nat
        } else {
            0nat
        }
    }
}

/// The number a byte string spells, most significant byte first.
pub open spec fn bytes_value(d: Seq<u8>) -> nat
    decreases d.len(),
{
    if d.len() == 0 {
        0
    } else {
        bytes_value(d.drop_last()) * 256 + d.last() as nat
    }
}

/// All the bits of a byte string.
pub open spec fn all_bits(d: Seq<u8>) -> Seq<bool> {
    Seq::new((8 * d.len()) as nat, |i: int| bit_of(d, i))
}

/// The bits of the bytes that a read of `count` bits at `offset` returns:
/// zero in front, then the bits read.
pub proof fn lemma_read_bytes_bits(bytes: Seq<u8>, offset: int, count: int)
    requires
        count >= 0,
    ensures
        read_bytes(bytes, offset, count).len() == bytes_for_bits(count),
        8 * bytes_for_bits(count) - count < 8,
        8 * bytes_for_bits(count) >= count,
        forall|i: int|
            0 <= i < 8 * bytes_for_bits(count) ==> #[trigger] bit_of(read_bytes(bytes, offset, count), i)
                == (i >= 8 * bytes_for_bits(count) - count && bit_of(
                bytes,
                offset - (8 * bytes_for_bits(count) - count) + i,
            )),
{
    let r = read_bytes(bytes, offset, count);
    let pad = 8 * bytes_for_bits(count) - count;
    assert forall|i: int| 0 <= i < 8 * bytes_for_bits(count) implies #[trigger] bit_of(r, i) == (i
        >= pad && bit_of(bytes, offset - pad + i)) by {
        let j = i / 8;
        let t = i % 8;
        assert(i == 8 * j + t);
        lemma_window_bit(bytes, offset - pad + 8 * j, t);
        if j == 0 {
            lemma_mask_bit(window(bytes, offset - pad), pad, t);
        }
    }
}

/// The field read at `offset` is well-formed, with the bits read.
proof fn lemma_read_field(field: BinField, bytes: Seq<u8>, offset: int, count: int)
    requires
        count >= 0,
        field.data@ == read_bytes(bytes, offset, count),
        field.length == count,
    ensures
        field.wf(),
        field.bits() == source_bits(bytes, offset, count),
{
    lemma_read_bytes_bits(bytes, offset, count);
    assert forall|j: int| 0 <= j < field.left_padding() implies !#[trigger] bit_of(
        field.data@,
        j,
    ) by {}
    assert forall|k: int| 0 <= k < count implies field.bits()[k] == source_bits(
        bytes,
        offset,
        count,
    )[k] by {
        assert(bit_of(field.data@, field.left_padding() + k) == bit_of(bytes, offset + k));
    }
    assert(field.bits() =~= source_bits(bytes, offset, count));
}

/// Reading `a + b` bits gives the bits of reading `a` bits followed by the
/// bits of reading the next `b`.
pub proof fn law_read_split(bytes: Seq<u8>, offset: int, a: int, b: int)
    requires
        a >= 0,
        b >= 0,
    ensures
        source_bits(bytes, offset, a + b) == source_bits(bytes, offset, a) + source_bits(
            bytes,
            offset + a,
            b,
        ),
{
    assert(source_bits(bytes, offset, a + b) =~= source_bits(bytes, offset, a) + source_bits(
        bytes,
        offset + a,
        b,
    ));
}

proof fn lemma_bits_value_concat(x: Seq<bool>, y: Seq<bool>)
    ensures
        bits_value(x + y) == bits_value(x) * two_pow(y.len()) + bits_value(y),
    decreases y.len(),
{
    if y.len() == 0 {
        assert(x + y =~= x);
        assert(two_pow(0) == 1);
        assert(bits_value(x) * 1 == bits_value(x));
    } else {
        lemma_bits_value_concat(x, y.drop_last());
        let xy = x + y;
        assert(xy.drop_last() =~= x + y.drop_last());
        assert(xy.last() == y.last());
        let vx = bits_value(x);
        let p = two_pow((y.len() - 1) as nat);
        let vy = bits_value(y.drop_last());
        let l: nat = if y.last() {
            1
        } else {
            0
        };
        assert(bits_value(xy) == bits_value(xy.drop_last()) * 2 + l);
        assert(bits_value(y) == vy * 2 + l);
        assert(two_pow(y.len()) == 2 * p);
        assert(bits_value(xy.drop_last()) == vx * p + vy);
        assert((vx * p + vy) * 2 + l == vx * (2 * p) + (vy * 2 + l)) by (nonlinear_arith);
        assert(bits_value(xy) == vx * two_pow(y.len()) + bits_value(y));
    }
}

proof fn lemma_shift_step_bv(x: u8, s: u8, s1: u8)
    by (bit_vector)
    requires
        s < 8,
        s1 == s + 1,
    ensures
        (x >> s) == 2 * (x >> s1) + ((x >> s) & 1u8),
        (x >> s) & 1u8 <= 1,
        (x >> 8u8) == 0u8,
        (x >> 0u8) == x,
{
}

/// The first `m` bits of a byte spell the byte shifted right by `8 - m`.
proof fn lemma_byte_prefix_value(x: u8, m: int)
    requires
        0 <= m <= 8,
    ensures
        bits_value(all_bits(seq![x]).take(m)) == (x >> ((8 - m) as u8)) as nat,
    decreases m,
{
    let s = all_bits(seq![x]);
    lemma_shift_step_bv(x, 0, 1);
    if m == 0 {
        assert(s.take(0) =~= Seq::<bool>::empty());
    } else {
        lemma_byte_prefix_value(x, m - 1);
        let t = s.take(m);
        assert(t.drop_last() =~= s.take(m - 1));
        assert(t.last() == s[m - 1]);
        assert((m - 1) / 8 == 0 && (m - 1) % 8 == m - 1);
        assert(s[m - 1] == byte_bit(x, m - 1));
        lemma_shift_step_bv(x, (8 - m) as u8, (9 - m) as u8);
    }
}

/// The eight bits of a byte spell the byte.
proof fn lemma_byte_bits_value(x: u8)
    ensures
        bits_value(all_bits(seq![x])) == x,
{
    let s = all_bits(seq![x]);
    lemma_byte_prefix_value(x, 8);
    lemma_shift_step_bv(x, 0, 1);
    assert(s.take(8) =~= s);
}

/// The bits of a byte string spell the same number as its bytes.
proof fn lemma_bytes_value_bits(d: Seq<u8>)
    ensures
        bytes_value(d) == bits_value(all_bits(d)),
    decreases d.len(),
{
    if d.len() == 0 {
        assert(all_bits(d) =~= Seq::<bool>::empty());
    } else {
        let front = d.drop_last();
        lemma_bytes_value_bits(front);
        let last = seq![d.last()];
        assert(all_bits(d) =~= all_bits(front) + all_bits(last)) by {
            assert forall|i: int| 0 <= i < 8 * d.len() implies #[trigger] all_bits(d)[i] == (
            all_bits(front) + all_bits(last))[i] by {
                if i < 8 * front.len() {
                    assert(byte_at(d, i / 8) == byte_at(front, i / 8));
                } else {
                    let q = i - 8 * front.len();
                    assert(i / 8 == front.len() + q / 8);
                    assert(i % 8 == q % 8);
                    assert(byte_at(d, i / 8) == byte_at(last, q / 8));
                }
            }
        }
        lemma_bits_value_concat(all_bits(front), all_bits(last));
        lemma_byte_bits_value(d.last());
        assert(two_pow(8) == 256) by {
            reveal_with_fuel(two_pow, 9);
        }
    }
}

proof fn lemma_leading_zeros_value(z: Seq<bool>, s: Seq<bool>)
    requires
        forall|i: int| 0 <= i < z.len() ==> !z[i],
    ensures
        bits_value(z + s) == bits_value(s),
    decreases z.len(),
{
    lemma_bits_value_concat(z, s);
    lemma_zeros_value(z);
}

proof fn lemma_zeros_value(z: Seq<bool>)
    requires
        forall|i: int| 0 <= i < z.len() ==> !z[i],
    ensures
        bits_value(z) == 0,
    decreases z.len(),
{
    if z.len() > 0 {
        lemma_zeros_value(z.drop_last());
    }
}

/// The bytes of a well-formed field spell the number its bits spell.
pub proof fn law_field_value(field: BinField)
    requires
        field.wf(),
    ensures
        bytes_value(field.data@) == bits_value(field.bits()),
{
    let lp = field.left_padding();
    let z = Seq::new(lp as nat, |i: int| false);
    assert(all_bits(field.data@) =~= z + field.bits()) by {
        assert forall|i: int| 0 <= i < 8 * field.data@.len() implies #[trigger] all_bits(
            field.data@,
        )[i] == (z + field.bits())[i] by {
            if i < lp {
                assert(!bit_of(field.data@, i));
            }
        }
    }
    lemma_bytes_value_bits(field.data@);
    lemma_leading_zeros_value(z, field.bits());
}

/// As numbers: reading `a + b` bits gives the number read in the first `a`
/// bits, shifted left by `b`, plus the number read in the next `b`.
pub proof fn law_read_split_value(bytes: Seq<u8>, offset: int, a: int, b: int)
    requires
        a >= 0,
        b >= 0,
    ensures
        bytes_value(read_bytes(bytes, offset, a + b)) == bytes_value(read_bytes(bytes, offset, a))
            * two_pow(b as nat) + bytes_value(read_bytes(bytes, offset + a, b)),
{
    law_read_split(bytes, offset, a, b);
    lemma_read_value(bytes, offset, a + b);
    lemma_read_value(bytes, offset, a);
    lemma_read_value(bytes, offset + a, b);
    lemma_bits_value_concat(source_bits(bytes, offset, a), source_bits(bytes, offset + a, b));
}

proof fn lemma_read_value(bytes: Seq<u8>, offset: int, count: int)
    requires
        count >= 0,
    ensures
        bytes_value(read_bytes(bytes, offset, count)) == bits_value(
            source_bits(bytes, offset, count),
        ),
{
    let r = read_bytes(bytes, offset, count);
    lemma_read_bytes_bits(bytes, offset, count);
    let pad = 8 * bytes_for_bits(count) - count;
    let z = Seq::new(pad as nat, |i: int| false);
    assert(all_bits(r) =~= z + source_bits(bytes, offset, count)) by {
        assert forall|i: int| 0 <= i < 8 * r.len() implies #[trigger] all_bits(r)[i] == (z
            + source_bits(bytes, offset, count))[i] by {
            assert(bit_of(r, i) == (i >= pad && bit_of(bytes, offset - pad + i)));
        }
    }
    lemma_bytes_value_bits(r);
    lemma_leading_zeros_value(z, source_bits(bytes, offset, count));
}

/// Copying bits `offset .. offset + count` of a string through a field (a
/// read, then a write at the same offset into a zeroed buffer as long as the
/// string) reproduces exactly those bits and leaves the rest zero.
pub proof fn law_copy_bits(src: Seq<u8>, zeros: Seq<u8>, offset: usize, field: BinField)
    requires
        zeros.len() == src.len(),
        forall|k: int| 0 <= k < zeros.len() ==> zeros[k] == 0u8,
        field.data@ == read_bytes(src, offset as int, field.length as int),
        offset + field.length <= 8 * src.len(),
    ensures
        forall|q: int|
            0 <= q < 8 * src.len() ==> #[trigger] bit_of(
                write_bytes(zeros, offset as int, field.data@, field.length as int),
                q,
            ) == (offset <= q < offset + field.length && bit_of(src, q)),
{
    lemma_read_field(field, src, offset as int, field.length as int);
    law_write_places_field_bits(zeros, offset, field);
    assert forall|q: int| 0 <= q < 8 * src.len() implies #[trigger] bit_of(
        write_bytes(zeros, offset as int, field.data@, field.length as int),
        q,
    ) == (offset <= q < offset + field.length && bit_of(src, q)) by {
        assert(byte_at(zeros, q / 8) == 0u8);
        crate::bits::lemma_zero_bit(q % 8);
        if offset <= q < offset + field.length {
            assert(field.bits()[q - offset] == bit_of(src, offset + (q - offset)));
        }
    }
}

proof fn lemma_or_into_bv(b: u8, a: u8, l: u8)
    by (bit_vector)
    ensures
        (b | a) | l == b | ((0u8 | a) | l),
{
}

/// A write only ors bits into the buffer: each byte after it is the old
/// byte or-ed with what the same write leaves in a zeroed buffer.
pub proof fn law_write_ors_in(buf: Seq<u8>, zeros: Seq<u8>, offset: int, data: Seq<u8>, count: int)
    requires
        zeros.len() == buf.len(),
        forall|k: int| 0 <= k < zeros.len() ==> zeros[k] == 0u8,
    ensures
        write_bytes(buf, offset, data, count).len() == buf.len(),
        forall|k: int|
            0 <= k < buf.len() ==> #[trigger] write_bytes(buf, offset, data, count)[k] == buf[k]
                | write_bytes(zeros, offset, data, count)[k],
{
    assert forall|k: int| 0 <= k < buf.len() implies #[trigger] write_bytes(
        buf,
        offset,
        data,
        count,
    )[k] == buf[k] | write_bytes(zeros, offset, data, count)[k] by {
        lemma_or_into_bv(
            buf[k],
            aligned_term(data, count, offset, k),
            last_byte_term(data, count, offset, k),
        );
    }
}

/// Two writes give the same buffer in either order.
pub proof fn law_writes_commute(
    buf: Seq<u8>,
    a: int,
    f: Seq<u8>,
    fc: int,
    b: int,
    g: Seq<u8>,
    gc: int,
)
    ensures
        write_bytes(write_bytes(buf, a, f, fc), b, g, gc) == write_bytes(
            write_bytes(buf, b, g, gc),
            a,
            f,
            fc,
        ),
{
    let one = write_bytes(write_bytes(buf, a, f, fc), b, g, gc);
    let two = write_bytes(write_bytes(buf, b, g, gc), a, f, fc);
    assert forall|k: int| 0 <= k < buf.len() implies one[k] == two[k] by {
        lemma_group_bv(
            buf[k],
            aligned_term(f, fc, a, k),
            last_byte_term(f, fc, a, k),
            aligned_term(g, gc, b, k),
            last_byte_term(g, gc, b, k),
        );
    }
    assert(one =~= two);
}

proof fn lemma_group_bv(b: u8, p: u8, q: u8, r: u8, s: u8)
    by (bit_vector)
    ensures
        (((b | p) | q) | r) | s == (((b | r) | s) | p) | q,
{
}

/// Two bytes, high byte first, spell sixteen bits worth `256 * hi + lo`.
pub proof fn law_pair_value(hi: u8, lo: u8)
    ensures
        bits_value(source_bits(seq![hi, lo], 0, 16)) == hi * 256 + lo,
{
    let d = seq![hi, lo];
    lemma_bytes_value_bits(d);
    assert(all_bits(d) =~= source_bits(d, 0, 16));
    assert(d.drop_last() =~= seq![hi]);
    assert(seq![hi].drop_last() =~= Seq::<u8>::empty());
    assert(bytes_value(Seq::<u8>::empty()) == 0);
    assert(bytes_value(seq![hi]) == hi);
    assert(bytes_value(d) == hi * 256 + lo);
}

} // verus!
