//! Binary fields: runs of bits cut out of a byte string, kept right-aligned
//! in whole bytes, and written back into byte strings.
use vstd::prelude::*;
use vstd::string::StringExecFns;

use crate::bits::{
    bit_of, byte_at, byte_bit, bytes_for_bits, combine, lemma_bytes_eq_from_bits, lemma_mask_bit,
    lemma_or_bit, lemma_or_zero, lemma_probe_bit, lemma_shl_bit, lemma_small_byte_bit, lemma_window_bit, lemma_zero_bit, lemma_window_past_end, window,
};

verus! {

/// A binary field.
///
/// `data` holds the bits right-aligned: the first byte starts with the
/// unused (zero) bits and the significant bits fill the rest of the bytes.
pub struct BinField {
    /// The bytes that hold the bits, right-aligned.
    pub data: Vec<u8>,
    /// Number of significant bits.
    pub length: usize,
    /// Number of bits of the field that lay past the end of the string it
    /// was read from.
    pub padding_length: usize,
}

impl BinField {
    /// Number of unused bits at the front of `data`.
    pub open spec fn left_padding(&self) -> int {
        8 * self.data@.len() - self.length
    }

    /// `data` is exactly as long as the significant bits need, and the unused
    /// bits in front of them are zero.
    pub open spec fn wf(&self) -> bool {
        &&& self.length <= 8 * self.data@.len()
        &&& 8 * self.data@.len() < self.length + 8
        &&& forall|j: int| 0 <= j < self.left_padding() ==> !#[trigger] bit_of(self.data@, j)
    }

    /// The significant bits, first bit first.
    pub open spec fn bits(&self) -> Seq<bool> {
        Seq::new(self.length as nat, |k: int| bit_of(self.data@, self.left_padding() + k))
    }
}

/// Bits `offset .. offset + count` of a byte string.
pub open spec fn source_bits(bytes: Seq<u8>, offset: int, count: int) -> Seq<bool> {
    Seq::new(count as nat, |k: int| bit_of(bytes, offset + k))
}

/// How many of the bits `offset .. offset + count` lie past the end of a
/// string of `len` bytes.
pub open spec fn overhang(len: int, offset: int, count: int) -> int {
    if offset + count > 8 * len {
        offset + count - 8 * len
    } else {
        0
    }
}

/// The bytes of the field read from bits `offset .. offset + count` of a
/// string: the windows of eight bits ending at the field's last bit, the
/// first one cleared in front of the field's first bit.
pub open spec fn read_bytes(bytes: Seq<u8>, offset: int, count: int) -> Seq<u8> {
    let pad = 8 * bytes_for_bits(count) - count;
    Seq::new(
        bytes_for_bits(count) as nat,
        |j: int|
            if j == 0 {
                window(bytes, offset - pad) & (0xffu8 >> (pad as u8))
            } else {
                window(bytes, offset - pad + 8 * j)
            },
    )
}

/// The byte at index `i` of a vector, or zero past its end.
fn byte_or_zero(v: &Vec<u8>, i: usize) -> (b: u8)
    ensures
        b == byte_at(v@, i as int),
{
    if i < v.len() {
        v[i]
    } else {
        0
    }
}

/// The eight bits that follow bit `r` of `hi`, continuing into `lo`.
fn combine_bytes(hi: u8, lo: u8, r: u8) -> (b: u8)
    requires
        r < 8,
    ensures
        b == combine(hi, lo, r as int),
{
    if r == 0 {
        hi
    } else {
        (hi << r) | (lo >> (8 - r))
    }
}

/// Number of bytes needed to hold `n` bits.
fn bytes_for(n: usize) -> (r: usize)
    ensures
        r == bytes_for_bits(n as int),
        8 * r >= n,
        8 * r < n + 8,
{
    n / 8 + if n % 8 == 0 {
        0
    } else {
        1
    }
}

/// Reads `read_length` bits of `data_to_read`, starting at bit `bit_offset`.
///
/// The bits come back right-aligned in a field of `read_length` bits; bits
/// past the end of `data_to_read` read as zero, and `padding_length` counts
/// them.
pub fn read_bin_field(data_to_read: &Vec<u8>, bit_offset: usize, read_length: usize) -> (field:
    BinField)
    requires
        bit_offset + read_length <= usize::MAX,
        8 * data_to_read@.len() <= usize::MAX,
        bit_offset / 8 < data_to_read@.len() ==> read_length > 0,
    ensures
        field.wf(),
        field.length == read_length,
        field.bits() == source_bits(data_to_read@, bit_offset as int, read_length as int),
        field.data@ == read_bytes(data_to_read@, bit_offset as int, read_length as int),
        field.padding_length == overhang(
            data_to_read@.len() as int,
            bit_offset as int,
            read_length as int,
        ),
        bit_offset + read_length <= 8 * data_to_read@.len() ==> field.padding_length == 0,
        bit_offset + read_length > 8 * data_to_read@.len() ==> field.padding_length == bit_offset
            + read_length - 8 * data_to_read@.len(),
{
    let buf_len = bytes_for(read_length);
    let target_padding = (8 - read_length % 8) % 8;
    let length = data_to_read.len();
    let end = bit_offset + read_length;
    let padding_length = if end > length * 8 {
        end - length * 8
    } else {
        0
    };
    let byte_index = bit_offset / 8;
    let bit_in_byte = bit_offset % 8;
    let ghost src = data_to_read@;
    let ghost start = bit_offset - target_padding;
    let mut data: Vec<u8> = Vec::new();
    let mut j: usize = 0;
    while j < buf_len
        invariant
            0 <= j <= buf_len,
            buf_len == bytes_for_bits(read_length as int),
            8 * buf_len >= read_length,
            8 * buf_len < read_length + 8,
            target_padding == 8 * buf_len - read_length,
            bit_offset + read_length <= usize::MAX,
            byte_index == bit_offset / 8,
            bit_in_byte == bit_offset % 8,
            src == data_to_read@,
            start == bit_offset - target_padding,
            data@.len() == j,
            forall|jj: int|
                0 <= jj < j ==> #[trigger] data@[jj] == read_bytes(
                    src,
                    bit_offset as int,
                    read_length as int,
                )[jj],
            forall|i: int|
                0 <= i < 8 * j ==> #[trigger] bit_of(data@, i) == (i >= target_padding && bit_of(
                    src,
                    start + i,
                )),
        decreases buf_len - j,
    {
        let (hi, lo, r) = if bit_in_byte >= target_padding {
            (
                byte_or_zero(data_to_read, byte_index + j),
                byte_or_zero(data_to_read, byte_index + j + 1),
                (bit_in_byte - target_padding) as u8,
            )
        } else {
            let hi = if byte_index + j >= 1 {
                byte_or_zero(data_to_read, byte_index + j - 1)
            } else {
                0
            };
            (hi, byte_or_zero(data_to_read, byte_index + j), (bit_in_byte + 8 - target_padding) as u8)
        };
        let mut b = combine_bytes(hi, lo, r);
        proof {
            let s = start + 8 * j;
            if bit_in_byte >= target_padding {
                assert(s == 8 * (byte_index + j) + r);
            } else {
                assert(s == 8 * (byte_index + j - 1) + r);
            }
            assert(s / 8 * 8 + s % 8 == s);
            assert(b == window(src, s));
        }
        if j == 0 {
            b = b & (0xffu8 >> (target_padding as u8));
        }
        let ghost old_data = data@;
        proof {
            assert(b == read_bytes(src, bit_offset as int, read_length as int)[j as int]);
        }
        data.push(b);
        proof {
            assert forall|i: int| 0 <= i < 8 * (j + 1) implies #[trigger] bit_of(data@, i) == (i
                >= target_padding && bit_of(src, start + i)) by {
                if i < 8 * j {
                    assert(byte_at(data@, i / 8) == byte_at(old_data, i / 8));
                    assert(bit_of(old_data, i) == (i >= target_padding && bit_of(src, start + i)));
                } else {
                    let t = i - 8 * j;
                    assert(i / 8 == j && i % 8 == t);
                    assert(byte_at(data@, i / 8) == b);
                    lemma_window_bit(src, start + 8 * j, t);
                    if j == 0 {
                        lemma_mask_bit(window(src, start), target_padding as int, t);
                    }
                }
            }
        }
        j = j + 1;
    }
    let field = BinField { data, length: read_length, padding_length };
    proof {
        assert(field.data@ =~= read_bytes(src, bit_offset as int, read_length as int));
        assert(field.left_padding() == target_padding);
        assert forall|k: int| 0 <= k < read_length implies field.bits()[k] == source_bits(
            src,
            bit_offset as int,
            read_length as int,
        )[k] by {
            assert(bit_of(field.data@, target_padding + k) == (target_padding + k >= target_padding
                && bit_of(src, start + target_padding + k)));
        }
        assert(field.bits() =~= source_bits(src, bit_offset as int, read_length as int));
        assert forall|jj: int| 0 <= jj < field.left_padding() implies !#[trigger] bit_of(
            field.data@,
            jj,
        ) by {
            assert(bit_of(field.data@, jj) == (jj >= target_padding && bit_of(src, start + jj)));
        }
    }
    field
}

/// The padding of a read counts the requested bits that lie past the end of
/// the string: none when the read ends within it, every bit from its end on
/// otherwise, and never more than were requested.
pub proof fn law_read_padding_counts_bits_past_end(
    bytes: Seq<u8>,
    offset: int,
    count: int,
    field: BinField,
)
    requires
        offset >= 0,
        count >= 0,
        field.padding_length == overhang(bytes.len() as int, offset, count),
    ensures
        offset + count <= 8 * bytes.len() ==> field.padding_length == 0,
        offset + count > 8 * bytes.len() ==> field.padding_length == offset + count - 8
            * bytes.len(),
        offset <= 8 * bytes.len() ==> field.padding_length <= count,
{
}

/// Number of unused bits in front of `count` bits held right-aligned in `n`
/// bytes, modulo a whole byte.
pub open spec fn source_left_padding(n: int, count: int) -> int {
    (8 * n - count) % 8
}

/// What a write of the bytes `data` (holding `count` bits) at bit `offset`
/// ors into byte `k`: the bits of `data` that line up with that byte, for
/// every byte from the one that holds bit `offset` on.
pub open spec fn aligned_term(data: Seq<u8>, count: int, offset: int, k: int) -> u8 {
    if k >= offset / 8 {
        window(data, 8 * k + source_left_padding(data.len() as int, count) - offset)
    } else {
        0
    }
}

/// What a write ors, besides `aligned_term`, into the byte that holds the
/// field's last bit, when the field's bits move towards the front: the last
/// byte of `data`, shifted left by the difference of the two paddings.
pub open spec fn last_byte_term(data: Seq<u8>, count: int, offset: int, k: int) -> u8 {
    let n = data.len() as int;
    let slp = source_left_padding(n, count);
    let o = offset % 8;
    if slp > o && n > 1 && k == (offset + count - 1) / 8 {
        (data[n - 1] << ((slp - o) as u8)) as u8
    } else {
        0
    }
}

/// The bytes of `buf` after writing the field held in `data` (`count` bits)
/// at bit `offset`.
pub open spec fn write_bytes(buf: Seq<u8>, offset: int, data: Seq<u8>, count: int) -> Seq<u8> {
    Seq::new(
        buf.len(),
        |k: int|
            (buf[k] | aligned_term(data, count, offset, k)) | last_byte_term(data, count, offset, k),
    )
}

/// The inputs on which a write is defined: where the offset falls inside
/// the buffer, the field's bits must fit its bytes, the end of the field
/// must be a bit index, and an empty field needs a byte-aligned offset.
pub open spec fn write_defined(buf_len: int, offset: int, n: int, count: int) -> bool {
    offset / 8 < buf_len ==> {
        &&& offset + count >= 1
        &&& offset + count <= usize::MAX
        &&& 8 * n <= usize::MAX
        &&& count <= 8 * n
        &&& (n > 0 || offset % 8 == 0)
    }
}

#[verifier::rlimit(40)]
/// Ors the bits of `data_to_write` into `data_buffer`, its first significant
/// bit at bit `bit_offset`; bits that would fall past the end of the buffer
/// are dropped.
pub fn write_bin_field_into_pos(data_buffer: &mut Vec<u8>, bit_offset: usize, data_to_write: BinField)
    requires
        write_defined(
            old(data_buffer)@.len() as int,
            bit_offset as int,
            data_to_write.data@.len() as int,
            data_to_write.length as int,
        ),
    ensures
        final(data_buffer)@ == write_bytes(
            old(data_buffer)@,
            bit_offset as int,
            data_to_write.data@,
            data_to_write.length as int,
        ),
{
    let ghost old_buf = data_buffer@;
    let ghost data = data_to_write.data@;
    let ghost count = data_to_write.length as int;
    let length = data_buffer.len();
    let byte_index = bit_offset / 8;
    if byte_index >= length {
        proof {
            assert forall|k: int| 0 <= k < old_buf.len() implies write_bytes(
                old_buf,
                bit_offset as int,
                data,
                count,
            )[k] == old_buf[k] by {
                lemma_or_zero(old_buf[k]);
                if source_left_padding(data.len() as int, count) > bit_offset % 8 {
                    assert(count >= 1);
                    assert((bit_offset + count - 1) / 8 >= byte_index);
                }
                lemma_or_zero(old_buf[k] | aligned_term(data, count, bit_offset as int, k));
            }
            assert(write_bytes(old_buf, bit_offset as int, data, count) =~= old_buf);
        }
        return;
    }
    let n = data_to_write.data.len();
    let bytes_to_write = (bit_offset + data_to_write.length - 1) / 8;
    let source_padding = (n * 8 - data_to_write.length) % 8;
    let target_padding = bit_offset % 8;
    let end = if byte_index + n + 1 < length {
        byte_index + n + 1
    } else {
        length
    };
    let mut k = byte_index;
    while k < end
        invariant
            byte_index <= k <= end <= length,
            end == length || end == byte_index + n + 1,
            byte_index == bit_offset / 8,
            target_padding == bit_offset % 8,
            n == data.len(),
            source_padding == source_left_padding(n as int, count),
            data == data_to_write.data@,
            count == data_to_write.length,
            length == old_buf.len(),
            data_buffer@.len() == length,
            forall|i: int|
                0 <= i < length ==> #[trigger] data_buffer@[i] == if byte_index <= i < k {
                    old_buf[i] | aligned_term(data, count, bit_offset as int, i)
                } else {
                    old_buf[i]
                },
        decreases end - k,
    {
        let d = k - byte_index;
        let (hi, lo, r) = if source_padding >= target_padding {
            (
                byte_or_zero(&data_to_write.data, d),
                byte_or_zero(&data_to_write.data, d + 1),
                (source_padding - target_padding) as u8,
            )
        } else {
            let hi = if d >= 1 {
                byte_or_zero(&data_to_write.data, d - 1)
            } else {
                0
            };
            (hi, byte_or_zero(&data_to_write.data, d), (source_padding + 8 - target_padding) as u8)
        };
        let w = combine_bytes(hi, lo, r);
        proof {
            let s = 8 * k + source_padding - bit_offset;
            if source_padding >= target_padding {
                assert(s == 8 * d + r);
            } else {
                assert(s == 8 * (d - 1) + r);
            }
            assert(w == window(data, s));
        }
        let cur = data_buffer[k];
        data_buffer.set(k, cur | w);
        k = k + 1;
    }
    proof {
        assert forall|i: int| end <= i < length implies aligned_term(
            data,
            count,
            bit_offset as int,
            i,
        ) == 0u8 by {
            lemma_window_past_end(data, 8 * i + source_padding - bit_offset);
        }
    }
    if source_padding > target_padding && n > 1 && bytes_to_write < length {
        let shift = source_padding - target_padding;
        let cur = data_buffer[bytes_to_write];
        data_buffer.set(bytes_to_write, cur | (data_to_write.data[n - 1] << shift));
    }
    proof {
        assert forall|i: int| 0 <= i < length implies data_buffer@[i] == write_bytes(
            old_buf,
            bit_offset as int,
            data,
            count,
        )[i] by {
            let a = old_buf[i] | aligned_term(data, count, bit_offset as int, i);
            if i < byte_index || i >= end {
                lemma_or_zero(old_buf[i]);
            }
            if last_byte_term(data, count, bit_offset as int, i) == 0u8 {
                lemma_or_zero(a);
            }
        }
        assert(data_buffer@ =~= write_bytes(old_buf, bit_offset as int, data, count));
    }
}

/// Bit `p` of a buffer after a write: the old bit, or the bit of the field's
/// bytes that lines up with it, or the bit that `last_byte_term` adds.
pub proof fn lemma_write_bits(buf: Seq<u8>, offset: int, data: Seq<u8>, count: int, p: int)
    requires
        0 <= p < 8 * buf.len(),
    ensures
        bit_of(write_bytes(buf, offset, data, count), p) == (bit_of(buf, p) || (p >= 8 * (offset
            / 8) && bit_of(data, p + source_left_padding(data.len() as int, count) - offset))
            || byte_bit(last_byte_term(data, count, offset, p / 8), p % 8)),
{
    let k = p / 8;
    let t = p % 8;
    let slp = source_left_padding(data.len() as int, count);
    let a = aligned_term(data, count, offset, k);
    let l = last_byte_term(data, count, offset, k);
    lemma_or_bit(buf[k] | a, l, t);
    lemma_or_bit(buf[k], a, t);
    if k >= offset / 8 {
        lemma_window_bit(data, 8 * k + slp - offset, t);
        assert(8 * k + slp - offset + t == p + slp - offset);
    } else {
        lemma_zero_bit(t);
        assert(p < 8 * (offset / 8));
    }
}

/// Writing a well-formed field ors its bits into the buffer at the offset
/// and leaves every other bit as it was; bits past the end of the buffer
/// are dropped.
pub proof fn law_write_places_field_bits(buf: Seq<u8>, offset: usize, field: BinField)
    requires
        field.wf(),
    ensures
        forall|p: int|
            0 <= p < 8 * buf.len() ==> #[trigger] bit_of(
                write_bytes(buf, offset as int, field.data@, field.length as int),
                p,
            ) == (bit_of(buf, p) || (offset <= p < offset + field.length && field.bits()[p
                - offset])),
{
    let data = field.data@;
    let n = data.len() as int;
    let count = field.length as int;
    let slp = source_left_padding(n, count);
    assert(slp == 8 * n - count);
    assert forall|p: int| 0 <= p < 8 * buf.len() implies #[trigger] bit_of(
        write_bytes(buf, offset as int, data, count),
        p,
    ) == (bit_of(buf, p) || (offset <= p < offset + count && field.bits()[p - offset])) by {
        lemma_write_bits(buf, offset as int, data, count, p);
        let q = p + slp - offset;
        let main = p >= 8 * (offset / 8) && bit_of(data, q);
        if offset <= p < offset + count {
            assert(field.bits()[p - offset] == bit_of(data, field.left_padding() + (p - offset)));
            assert(q == field.left_padding() + (p - offset));
            assert(p >= 8 * (offset / 8));
            assert(main == field.bits()[p - offset]);
        } else if p < offset {
            if q >= 0 {
                assert(q < field.left_padding());
                assert(forall|j: int| 0 <= j < field.left_padding() ==> !#[trigger] bit_of(field.data@, j));
                assert(!bit_of(data, q));
            } else {
                assert(q / 8 < 0);
                lemma_zero_bit(q % 8);
                assert(!bit_of(data, q));
            }
            assert(!main);
        } else {
            assert(q >= 8 * n);
            assert(q / 8 >= n);
            lemma_zero_bit(q % 8);
            assert(!bit_of(data, q));
            assert(!main);
        }
        let k = p / 8;
        let t = p % 8;
        let o = offset % 8;
        lemma_zero_bit(t);
        if last_byte_term(data, count, offset as int, k) != 0u8 {
            let bi = offset / 8;
            let shift = slp - o;
            assert(k == (offset + count - 1) / 8);
            assert(offset + count - 1 == 8 * (bi + n - 1) + (7 + o - slp));
            assert(k == bi + n - 1);
            lemma_shl_bit(data[n - 1], shift, t);
            if byte_bit(last_byte_term(data, count, offset as int, k), t) {
                assert(q == 8 * (n - 1) + t + shift);
                assert(q / 8 == n - 1 && q % 8 == t + shift);
                assert(main);
            }
        }
    }
}

/// Reading back, at the offset it was written to, a well-formed field written
/// over zero bits that the buffer holds in full gives the field's bits.
pub proof fn law_read_after_write(buf: Seq<u8>, offset: usize, field: BinField)
    requires
        field.wf(),
        offset + field.length <= 8 * buf.len(),
        forall|k: int| 0 <= k < field.length ==> !#[trigger] bit_of(buf, offset + k),
    ensures
        source_bits(
            write_bytes(buf, offset as int, field.data@, field.length as int),
            offset as int,
            field.length as int,
        ) == field.bits(),
{
    law_write_places_field_bits(buf, offset, field);
    let after = write_bytes(buf, offset as int, field.data@, field.length as int);
    assert forall|k: int| 0 <= k < field.length implies source_bits(
        after,
        offset as int,
        field.length as int,
    )[k] == field.bits()[k] by {
        assert(bit_of(after, offset + k) == (bit_of(buf, offset + k) || (offset <= offset + k
            < offset + field.length && field.bits()[offset + k - offset])));
    }
    assert(source_bits(after, offset as int, field.length as int) =~= field.bits());
}

/// A well-formed field is fixed by its length and its bits.
pub proof fn law_field_determined_by_bits(a: BinField, b: BinField)
    requires
        a.wf(),
        b.wf(),
        a.length == b.length,
        a.bits() == b.bits(),
    ensures
        a.data@ == b.data@,
{
    assert(a.data@.len() == b.data@.len());
    assert forall|i: int| 0 <= i < 8 * a.data@.len() implies bit_of(a.data@, i) == bit_of(
        b.data@,
        i,
    ) by {
        if i < a.left_padding() {
            assert(!bit_of(a.data@, i));
            assert(!bit_of(b.data@, i));
        } else {
            let k = i - a.left_padding();
            assert(a.left_padding() == b.left_padding());
            assert(0 <= k < a.length);
            assert(a.bits()[k] == b.bits()[k]);
            assert(a.bits()[k] == bit_of(a.data@, i));
            assert(b.bits()[k] == bit_of(b.data@, i));
        }
    }
    lemma_bytes_eq_from_bits(a.data@, b.data@);
}

impl BinField {
    /// Puts one more bit in front of the significant bits: it is or-ed into
    /// the first byte while that byte has room, else it becomes a new first
    /// byte.
    pub fn push_bit(&mut self, bit: u8)
        requires
            old(self).length < usize::MAX,
            old(self).length % 8 > 0 ==> old(self).data@.len() > 0,
        ensures
            final(self).length == old(self).length + 1,
            final(self).padding_length == old(self).padding_length,
            final(self).data@ == if old(self).length % 8 > 0 {
                old(self).data@.update(
                    0,
                    old(self).data@[0] | ((bit << ((old(self).length % 8) as u8)) as u8),
                )
            } else {
                old(self).data@.insert(0, bit)
            },
            old(self).wf() && bit <= 1 ==> final(self).wf() && final(self).bits() == seq![bit
                == 1u8] + old(self).bits(),
    {
        let ghost before = *self;
        if self.length % 8 > 0 {
            let shifted = bit << ((self.length % 8) as u8);
            let first = self.data[0] | shifted;
            self.data.set(0, first);
            self.length = self.length + 1;
        } else {
            self.data.insert(0, bit);
            self.length = self.length + 1;
        }
        proof {
            if before.wf() && bit <= 1 {
                Self::lemma_push_bit_bits(before, *self, bit);
            }
        }
    }

    proof fn lemma_push_bit_bits(before: BinField, after: BinField, bit: u8)
        requires
            before.wf(),
            bit <= 1,
            before.length < usize::MAX,
            after.length == before.length + 1,
            after.data@ == if before.length % 8 > 0 {
                before.data@.update(
                    0,
                    before.data@[0] | ((bit << ((before.length % 8) as u8)) as u8),
                )
            } else {
                before.data@.insert(0, bit)
            },
        ensures
            after.wf(),
            after.bits() == seq![bit == 1u8] + before.bits(),
    {
        let old_data = before.data@;
        let new_data = after.data@;
        let s = (before.length % 8) as int;
        let n = old_data.len() as int;
        if s > 0 {
            assert(before.left_padding() == 8 - s);
            assert(after.left_padding() == 7 - s);
            assert forall|i: int| 0 <= i < 8 * n implies #[trigger] bit_of(new_data, i) == (
            bit_of(old_data, i) || (i == 7 - s && bit == 1)) by {
                if i < 8 {
                    assert(i / 8 == 0 && i % 8 == i);
                    lemma_or_bit(old_data[0], (bit << (s as u8)) as u8, i);
                    lemma_shl_bit(bit, s as int, i);
                    lemma_small_byte_bit(bit, i + s);
                } else {
                    assert(byte_at(new_data, i / 8) == byte_at(old_data, i / 8));
                }
            }
            assert(!bit_of(old_data, 7 - s));
            assert forall|j: int| 0 <= j < after.left_padding() implies !#[trigger] bit_of(
                after.data@,
                j,
            ) by {
                assert(!bit_of(old_data, j));
            }
            assert forall|k: int| 0 <= k < after.length implies after.bits()[k] == (seq![bit
                == 1u8] + before.bits())[k] by {
                if k > 0 {
                    assert(before.bits()[k - 1] == bit_of(old_data, 8 - s + k - 1));
                }
            }
        } else {
            assert(before.left_padding() == 0);
            assert(after.left_padding() == 7);
            assert forall|i: int| 0 <= i < 8 * (n + 1) implies #[trigger] bit_of(new_data, i) == (
            if i < 8 {
                i == 7 && bit == 1
            } else {
                bit_of(old_data, i - 8)
            }) by {
                if i < 8 {
                    assert(i / 8 == 0 && i % 8 == i);
                    lemma_small_byte_bit(bit, i);
                } else {
                    assert(i / 8 == (i - 8) / 8 + 1);
                    assert(i % 8 == (i - 8) % 8);
                }
            }
            assert forall|j: int| 0 <= j < after.left_padding() implies !#[trigger] bit_of(
                after.data@,
                j,
            ) by {}
            assert forall|k: int| 0 <= k < after.length implies after.bits()[k] == (seq![bit
                == 1u8] + before.bits())[k] by {
                if k > 0 {
                    assert(before.bits()[k - 1] == bit_of(old_data, k - 1));
                    assert(after.bits()[k] == bit_of(new_data, 7 + k));
                } else {
                    assert(after.bits()[k] == bit_of(new_data, 7));
                }
            }
        }
        assert(after.bits() =~= seq![bit == 1u8] + before.bits());
    }
}

impl Clone for BinField {
    fn clone(&self) -> (copy: Self)
        ensures
            copy.data@ == self.data@,
            copy.length == self.length,
            copy.padding_length == self.padding_length,
    {
        let data = self.data.clone();
        assert(data@ =~= self.data@);
        BinField { data, length: self.length, padding_length: self.padding_length }
    }
}

/// What `==` looks at in a field: its bytes, its length and its padding.
pub open spec fn key_of(f: BinField) -> (Seq<u8>, usize, usize) {
    (f.data@, f.length, f.padding_length)
}

/// `a == b` on field keys: two fields are equal only when their values
/// coincide exactly, bytes, length and padding alike.
pub open spec fn keys_match(a: (Seq<u8>, usize, usize), b: (Seq<u8>, usize, usize)) -> bool {
    a == b
}

/// `a == b` for fields.
pub open spec fn fields_match(a: BinField, b: BinField) -> bool {
    keys_match(key_of(a), key_of(b))
}

impl PartialEq for BinField {
    fn eq(&self, other: &Self) -> (equal: bool) {
        if self.length != other.length || self.padding_length != other.padding_length
            || self.data.len() != other.data.len() {
            return false;
        }
        let mut i: usize = 0;
        while i < self.data.len()
            invariant
                0 <= i <= self.data@.len(),
                self.data@.len() == other.data@.len(),
                forall|j: int| 0 <= j < i ==> self.data@[j] == other.data@[j],
            decreases self.data@.len() - i,
        {
            if self.data[i] != other.data[i] {
                assert(self.data@[i as int] != other.data@[i as int]);
                return false;
            }
            i = i + 1;
        }
        assert(self.data@ =~= other.data@);
        true
    }
}

impl vstd::std_specs::cmp::PartialEqSpecImpl for BinField {
    open spec fn obeys_eq_spec() -> bool {
        true
    }

    open spec fn eq_spec(&self, other: &BinField) -> bool {
        fields_match(*self, *other)
    }
}

/// The escape sequence that turns the terminal's text red.
pub open spec fn red_mark() -> Seq<char> {
    seq!['\u{1b}', '[', '3', '1', 'm']
}

/// The escape sequence that turns the terminal's text white.
pub open spec fn white_mark() -> Seq<char> {
    seq!['\u{1b}', '[', '3', '7', 'm']
}

/// Bit `b` of `data` shown as `0` or `1`, in red when it lies in the last
/// `padding` bits.
pub open spec fn shown_bit(data: Seq<u8>, b: int, padding: int) -> Seq<char> {
    (if b + padding < 8 * data.len() {
        Seq::empty()
    } else {
        red_mark()
    }) + seq![
        if bit_of(data, b) {
            '1'
        } else {
            '0'
        },
    ]
}

/// Bits `from .. from + count` of `data`, shown one after the other.
pub open spec fn shown_bits(data: Seq<u8>, from: int, count: nat, padding: int) -> Seq<char>
    decreases count,
{
    if count == 0 {
        Seq::empty()
    } else {
        shown_bits(data, from, (count - 1) as nat, padding) + shown_bit(
            data,
            from + count - 1,
            padding,
        )
    }
}

impl BinField {
    /// The text of a field: its significant bits as `0` and `1`, the bits
    /// that were cut off at the right in red, then the colour reset to white.
    pub open spec fn display_chars(&self) -> Seq<char> {
        shown_bits(self.data@, self.left_padding(), self.length as nat, self.padding_length as int)
            + white_mark()
    }

    /// Shows the field as `0`s and `1`s (see `display_chars`).
    pub fn to_string(&self) -> (text: String)
        requires
            self.length <= 8 * self.data@.len(),
            8 * self.data@.len() <= usize::MAX,
            self.length > 0 ==> 8 * self.data@.len() - 1 + self.padding_length <= usize::MAX,
        ensures
            text@ == self.display_chars(),
            without_red(text@) == self.digits() + seq!['\u{1b}', '[', '3', '7', 'm'],
            text@ == marked_digits(*self, self.length as nat) + seq!['\u{1b}', '[', '3', '7', 'm'],
    {
        let total = self.data.len() * 8;
        let first = total - self.length;
        let mut text = String::new();
        let mut b = first;
        while b < total
            invariant
                first <= b <= total,
                total == 8 * self.data@.len(),
                first == self.left_padding(),
                self.length > 0 ==> total - 1 + self.padding_length <= usize::MAX,
                text@ == shown_bits(
                    self.data@,
                    first as int,
                    (b - first) as nat,
                    self.padding_length as int,
                ),
            decreases total - b,
        {
            let ghost before = text@;
            if b + self.padding_length >= total {
                text.append("\x1b[31m");
            }
            let bit_mask: u8 = 0x80;
            let value = ((bit_mask >> ((b % 8) as u8)) & self.data[b / 8]) >> ((7 - b % 8) as u8);
            proof {
                lemma_probe_bit(self.data@[(b / 8) as int], (b % 8) as int);
            }
            if value == 1 {
                text.append("1");
            } else {
                text.append("0");
            }
            proof {
                reveal_strlit("\x1b[31m");
                reveal_strlit("0");
                reveal_strlit("1");
                assert("\x1b[31m"@ == red_mark());
                assert("1"@ == seq!['1']);
                assert("0"@ == seq!['0']);
                assert(byte_at(self.data@, (b / 8) as int) == self.data@[(b / 8) as int]);
                assert(bit_of(self.data@, b as int) == byte_bit(self.data@[(b / 8) as int], (b % 8) as int));
                assert(text@ =~= before + shown_bit(self.data@, b as int, self.padding_length as int));
                assert((b + 1 - first) as nat - 1 == (b - first) as nat);
            }
            b = b + 1;
        }
        text.append("\x1b[37m");
        proof {
            reveal_strlit("\x1b[37m");
            assert((b - first) as nat == self.length as nat);
            assert(text@ =~= self.display_chars());
            law_text_shows_each_bit(*self, text@);
        }
        text
    }
}

/// A text with every `ESC [ 3 1 m` (the mark that turns the terminal red)
/// taken out.
pub open spec fn without_red(s: Seq<char>) -> Seq<char>
    decreases s.len(),
{
    if s.len() == 0 {
        s
    } else if s.len() >= 5 && s.subrange(s.len() - 5, s.len() as int) == seq![
        '\u{1b}',
        '[',
        '3',
        '1',
        'm',
    ] {
        without_red(s.subrange(0, s.len() - 5))
    } else {
        without_red(s.drop_last()).push(s.last())
    }
}

/// The first `c` significant bits of a field as digits, each of the bits
/// among the last `padding_length` of the field preceded by the mark that
/// turns the terminal red.
pub open spec fn marked_digits(f: BinField, c: nat) -> Seq<char>
    decreases c,
{
    if c == 0 {
        Seq::empty()
    } else {
        marked_digits(f, (c - 1) as nat) + (if c - 1 + f.padding_length >= f.length {
            seq!['\u{1b}', '[', '3', '1', 'm']
        } else {
            Seq::empty()
        }) + seq![if f.bits()[c - 1] { '1' } else { '0' }]
    }
}

impl BinField {
    /// The significant bits of the field, each as the digit `0` or `1`.
    pub open spec fn digits(&self) -> Seq<char> {
        Seq::new(self.length as nat, |k: int| if self.bits()[k] { '1' } else { '0' })
    }
}

proof fn lemma_without_red_chunk(x: Seq<char>, red: bool, d: char)
    requires
        d == '0' || d == '1',
    ensures
        without_red(x + (if red { red_mark() } else { Seq::empty() }) + seq![d]) == without_red(
            x,
        ).push(d),
{
    let m: Seq<char> = if red {
        red_mark()
    } else {
        Seq::empty()
    };
    let s = x + m + seq![d];
    let rm = seq!['\u{1b}', '[', '3', '1', 'm'];
    assert(s.last() == d);
    assert(!(s.len() >= 5 && s.subrange(s.len() - 5, s.len() as int) == rm)) by {
        if s.len() >= 5 && s.subrange(s.len() - 5, s.len() as int) == rm {
            assert(s.subrange(s.len() - 5, s.len() as int)[4] == d);
            assert(rm[4] == 'm');
        }
    }
    assert(s.drop_last() =~= x + m);
    assert(without_red(s) == without_red(s.drop_last()).push(d));
    if red {
        let y = x + m;
        assert(y.subrange(y.len() - 5, y.len() as int) =~= rm);
        assert(y.subrange(0, y.len() - 5) =~= x);
        assert(without_red(y) == without_red(x));
    } else {
        assert(x + m =~= x);
    }
}

proof fn lemma_without_red_white(y: Seq<char>)
    ensures
        without_red(y + white_mark()) == without_red(y) + white_mark(),
{
    let w = white_mark();
    let rm = seq!['\u{1b}', '[', '3', '1', 'm'];
    let s5 = y + w;
    let s4 = y + w.take(4);
    let s3 = y + w.take(3);
    let s2 = y + w.take(2);
    let s1 = y + w.take(1);
    assert(rm[3] == '1' && rm[4] == 'm');
    assert(!(s5.len() >= 5 && s5.subrange(s5.len() - 5, s5.len() as int) == rm)) by {
        if s5.len() >= 5 && s5.subrange(s5.len() - 5, s5.len() as int) == rm {
            assert(s5.subrange(s5.len() - 5, s5.len() as int)[3] == '7');
        }
    }
    assert(!(s4.len() >= 5 && s4.subrange(s4.len() - 5, s4.len() as int) == rm)) by {
        if s4.len() >= 5 && s4.subrange(s4.len() - 5, s4.len() as int) == rm {
            assert(s4.subrange(s4.len() - 5, s4.len() as int)[4] == '7');
        }
    }
    assert(!(s3.len() >= 5 && s3.subrange(s3.len() - 5, s3.len() as int) == rm)) by {
        if s3.len() >= 5 && s3.subrange(s3.len() - 5, s3.len() as int) == rm {
            assert(s3.subrange(s3.len() - 5, s3.len() as int)[4] == '3');
        }
    }
    assert(!(s2.len() >= 5 && s2.subrange(s2.len() - 5, s2.len() as int) == rm)) by {
        if s2.len() >= 5 && s2.subrange(s2.len() - 5, s2.len() as int) == rm {
            assert(s2.subrange(s2.len() - 5, s2.len() as int)[4] == '[');
        }
    }
    assert(!(s1.len() >= 5 && s1.subrange(s1.len() - 5, s1.len() as int) == rm)) by {
        if s1.len() >= 5 && s1.subrange(s1.len() - 5, s1.len() as int) == rm {
            assert(s1.subrange(s1.len() - 5, s1.len() as int)[4] == '\u{1b}');
        }
    }
    assert(s5.drop_last() =~= s4);
    assert(s4.drop_last() =~= s3);
    assert(s3.drop_last() =~= s2);
    assert(s2.drop_last() =~= s1);
    assert(s1.drop_last() =~= y);
    assert(s5.last() == 'm' && s4.last() == '7' && s3.last() == '3' && s2.last() == '['
        && s1.last() == '\u{1b}');
    assert(without_red(s1) == without_red(y).push('\u{1b}'));
    assert(without_red(s2) == without_red(s1).push('['));
    assert(without_red(s3) == without_red(s2).push('3'));
    assert(without_red(s4) == without_red(s3).push('7'));
    assert(without_red(s5) == without_red(s4).push('m'));
    assert(without_red(y).push('\u{1b}').push('[').push('3').push('7').push('m') =~= without_red(y)
        + w);
}

proof fn lemma_shown_prefix(f: BinField, c: nat)
    requires
        f.length <= 8 * f.data@.len(),
        c <= f.length,
    ensures
        without_red(shown_bits(f.data@, f.left_padding(), c, f.padding_length as int))
            == f.digits().take(c as int),
        shown_bits(f.data@, f.left_padding(), c, f.padding_length as int) == marked_digits(f, c),
        shown_bits(f.data@, f.left_padding(), c, f.padding_length as int).len() == c + 5 * (if c
            + f.padding_length > f.length {
            if f.padding_length >= f.length {
                c as int
            } else {
                c + f.padding_length - f.length
            }
        } else {
            0
        }),
    decreases c,
{
    if c == 0 {
        assert(f.digits().take(0) =~= Seq::<char>::empty());
    } else {
        let c0 = (c - 1) as nat;
        lemma_shown_prefix(f, c0);
        let b = f.left_padding() + c0;
        let red = !(b + f.padding_length < 8 * f.data@.len());
        let d = if bit_of(f.data@, b) {
            '1'
        } else {
            '0'
        };
        let prev = shown_bits(f.data@, f.left_padding(), c0, f.padding_length as int);
        assert(shown_bit(f.data@, b, f.padding_length as int) == (if red {
            red_mark()
        } else {
            Seq::empty()
        }) + seq![d]);
        assert(shown_bits(f.data@, f.left_padding(), c, f.padding_length as int) == prev + (if red {
            red_mark()
        } else {
            Seq::empty()
        }) + seq![d]);
        lemma_without_red_chunk(prev, red, d);
        assert(red_mark() =~= seq!['\u{1b}', '[', '3', '1', 'm']);
        assert(red == (c0 + f.padding_length >= f.length));
        assert(f.bits()[c0 as int] == bit_of(f.data@, b));
        assert(f.digits().take(c as int) =~= f.digits().take(c0 as int).push(d));
    }
}

/// With the red marks taken out, the text of a field is its significant
/// bits as digits, first bit first, then the mark that turns the terminal
/// white; each of the last `padding_length` bits (all, if there are fewer)
/// is marked red, so the text is five characters longer for each.
pub proof fn law_text_shows_each_bit(f: BinField, text: Seq<char>)
    requires
        f.length <= 8 * f.data@.len(),
        text == f.display_chars(),
    ensures
        without_red(text) == f.digits() + seq!['\u{1b}', '[', '3', '7', 'm'],
        text == marked_digits(f, f.length as nat) + seq!['\u{1b}', '[', '3', '7', 'm'],
        text.len() == f.length + 5 + 5 * (if f.padding_length >= f.length {
            f.length as int
        } else {
            f.padding_length as int
        }),
{
    lemma_shown_prefix(f, f.length as nat);
    let sb = shown_bits(f.data@, f.left_padding(), f.length as nat, f.padding_length as int);
    lemma_without_red_white(sb);
    assert(f.digits().take(f.length as int) =~= f.digits());
    assert(white_mark() =~= seq!['\u{1b}', '[', '3', '7', 'm']);
}

/// A field of no significant bits writes every bit of its bytes, the first
/// at the offset: the bytes are taken as they are.
pub proof fn law_write_whole_bytes(buf: Seq<u8>, offset: usize, data: Seq<u8>)
    ensures
        forall|p: int|
            0 <= p < 8 * buf.len() ==> #[trigger] bit_of(write_bytes(buf, offset as int, data, 0), p)
                == (bit_of(buf, p) || (offset <= p < offset + 8 * data.len() && bit_of(
                data,
                p - offset,
            ))),
{
    assert(source_left_padding(data.len() as int, 0) == 0);
    assert forall|p: int| 0 <= p < 8 * buf.len() implies #[trigger] bit_of(
        write_bytes(buf, offset as int, data, 0),
        p,
    ) == (bit_of(buf, p) || (offset <= p < offset + 8 * data.len() && bit_of(data, p - offset))) by {
        lemma_write_bits(buf, offset as int, data, 0, p);
        lemma_zero_bit(p % 8);
        let q = p - offset;
        lemma_zero_bit(q % 8);
        if q < 0 {
            assert(q / 8 < 0);
        } else if q >= 8 * data.len() {
            assert(q / 8 >= data.len());
        } else {
            assert(p >= 8 * (offset / 8));
        }
    }
}

/// Two well-formed fields of one length are `==` exactly when they have the
/// same bits and the same padding.
pub proof fn law_equal_fields_have_equal_bits(a: BinField, b: BinField)
    requires
        a.wf(),
        b.wf(),
        a.length == b.length,
    ensures
        fields_match(a, b) <==> (a.bits() == b.bits() && a.padding_length == b.padding_length),
{
    if fields_match(a, b) {
        assert(a.data@ =~= b.data@);
        assert(a.bits() =~= b.bits());
    }
    if a.bits() == b.bits() && a.padding_length == b.padding_length {
        law_field_determined_by_bits(a, b);
    }
}

} // verus!
