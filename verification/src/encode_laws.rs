//! What an encoded file holds, read back bit by bit: after the 16-bit
//! header, table entry `k` holds the bits of a field of the file, then the
//! length of entry `k`'s own code in 16 bits, then that code, first bit
//! first; after the table, the code of each field of the file in turn.
use vstd::prelude::*;

use crate::bin_field::{read_bytes, source_bits};
use crate::bits::{bit_of, bytes_for_bits};
use crate::encode::{
    body_parts, concat_bits, encoded_bits, encoded_size, file_codes, holds_prefix, key_bits,
    law_encoded_length, lemma_concat_take, lemma_file_tables, lemma_parts_length_monotone, pair_bits, parts_length,
    table_parts,
};
use crate::field_laws::{bits_value, law_pair_value, lemma_read_bytes_bits};
use crate::encode::field_indices;
use crate::frequency::{
    div_ceil, field_keys, first_match, frequency_table_of, law_table_entries_distinct,
    law_table_keys_are_values, lemma_first_match_bounds,
};

verus! {

/// Where table entry `k` of a file encoded with fields of `b` bits starts:
/// after the 16 bits of the header and the `k` entries before it, each of
/// `b` field bits, 16 length bits and its code.
pub open spec fn entry_start(b: int, codes: Seq<Seq<bool>>, k: int) -> int
    decreases k,
{
    if k <= 0 {
        16
    } else {
        entry_start(b, codes, k - 1) + b + 16 + codes[k - 1].len()
    }
}

/// Where the code of field `j` of the file starts: after the table (of
/// `n` entries) and the codes of the fields before it.
pub open spec fn field_code_start(
    b: int,
    codes: Seq<Seq<bool>>,
    n: int,
    idx: Seq<int>,
    j: int,
) -> int
    decreases j,
{
    if j <= 0 {
        entry_start(b, codes, n)
    } else {
        field_code_start(b, codes, n, idx, j - 1) + codes[idx[j - 1]].len()
    }
}

proof fn lemma_parts_length_drop_last(parts: Seq<Seq<bool>>, k: int)
    requires
        0 <= k < parts.len(),
    ensures
        parts_length(parts.drop_last(), k) == parts_length(parts, k),
    decreases k,
{
    if k > 0 {
        lemma_parts_length_drop_last(parts, k - 1);
    }
}

/// Bit `i` of part `k` stands in the concatenation after the parts before it.
proof fn lemma_concat_index(parts: Seq<Seq<bool>>, k: int, i: int)
    requires
        0 <= k < parts.len(),
        0 <= i < parts[k].len(),
    ensures
        parts_length(parts, k) + i < concat_bits(parts).len(),
        concat_bits(parts)[parts_length(parts, k) + i] == parts[k][i],
    decreases parts.len(),
{
    let front = parts.drop_last();
    lemma_concat_take(front, front.len() as int);
    assert(front.take(front.len() as int) =~= front);
    assert(concat_bits(parts) == concat_bits(front) + parts.last());
    lemma_parts_length_drop_last(parts, k);
    lemma_parts_length_monotone(parts, k, k);
    let cf = concat_bits(front);
    assert(cf.len() == parts_length(front, front.len() as int));
    if k < parts.len() - 1 {
        assert(front[k] == parts[k]);
        lemma_concat_index(front, k, i);
        assert(parts_length(front, k) + i < cf.len());
        assert(parts_length(front, k) == parts_length(parts, k));
        assert((cf + parts.last())[parts_length(parts, k) + i] == cf[parts_length(parts, k) + i]);
    } else {
        assert(parts_length(parts, k) == cf.len());
        assert((cf + parts.last())[cf.len() + i] == parts.last()[i]);
    }
}

proof fn lemma_div_ceil_bytes(size: int)
    requires
        size >= 0,
    ensures
        8 * div_ceil(size, 8) >= size,
{
}

/// The bits of an encoded file, as its bytes hold them.
proof fn lemma_out_bits(file: Seq<u8>, b: usize, out: Seq<u8>, p: int)
    requires
        file.len() >= 1,
        b > 0,
        8 * file.len() <= usize::MAX,
        div_ceil(8 * file.len() as int, b as int) * b <= usize::MAX,
        out.len() == div_ceil(encoded_size(file, b), 8),
        holds_prefix(out, encoded_bits(file, b)),
        0 <= p < encoded_bits(file, b).len(),
    ensures
        bit_of(out, p) == encoded_bits(file, b)[p],
{
    law_encoded_length(file, b);
    lemma_div_ceil_bytes(encoded_size(file, b));
}

proof fn lemma_table_starts(file: Seq<u8>, b: usize, k: int)
    requires
        file.len() >= 1,
        b > 0,
        8 * file.len() <= usize::MAX,
        div_ceil(8 * file.len() as int, b as int) * b <= usize::MAX,
        0 <= k <= table_parts(file, b).len(),
    ensures
        parts_length(table_parts(file, b), k) == entry_start(b as int, file_codes(file, b as int), k)
            - 16,
    decreases k,
{
    if k > 0 {
        lemma_table_starts(file, b, k - 1);
        lemma_file_tables(file, b);
        let t = frequency_table_of(field_keys(file, b as int));
        assert(t[k - 1].0.1 == b);
    }
}

/// The bits of the field with key `vals[j]` are bits `j * b ..` of the file.
proof fn lemma_key_bits(file: Seq<u8>, b: usize, j: int)
    requires
        0 <= j < field_keys(file, b as int).len(),
        b > 0,
    ensures
        key_bits(field_keys(file, b as int)[j]) == source_bits(file, j * b, b as int),
{
    let key = field_keys(file, b as int)[j];
    lemma_read_bytes_bits(file, j * b, b as int);
    let pad = 8 * bytes_for_bits(b as int) - b;
    assert forall|i: int| 0 <= i < b implies key_bits(key)[i] == source_bits(
        file,
        j * b,
        b as int,
    )[i] by {
        assert(bit_of(read_bytes(file, j * b, b as int), pad + i) == (pad + i >= pad && bit_of(
            file,
            j * b - pad + pad + i,
        )));
    }
    assert(key_bits(key) =~= source_bits(file, j * b, b as int));
}

proof fn lemma_u16_bytes(x: u16)
    by (bit_vector)
    ensures
        ((x >> 8u16) as u8) * 256 + (x as u8) == x,
{
}

/// Entry `k` of the table, read back from the bytes `out` of a file encoded
/// with fields of `b` bits: from where the entries before it end, the bits
/// of a field of the file (the entry's field), the length of this entry's
/// own code in sixteen bits, and this entry's code, first bit first.
pub open spec fn entry_reads_back(file: Seq<u8>, b: usize, out: Seq<u8>, k: int) -> bool {
    let vals = field_keys(file, b as int);
    let t = frequency_table_of(vals);
    let codes = file_codes(file, b as int);
    let s = entry_start(b as int, codes, k);
    &&& exists|j: int|
        0 <= j < vals.len() && #[trigger] vals[j] == t[k].0 && source_bits(out, s, b as int)
            == source_bits(file, j * b, b as int)
    &&& bits_value(source_bits(out, s + b, 16)) == (codes[k].len() as u16) as int
    &&& codes[k].len() < 0x10000 ==> bits_value(source_bits(out, s + b, 16)) == codes[k].len()
    &&& source_bits(out, s + b + 16, codes[k].len() as int) == codes[k]
}

/// One table entry of an encoded file.
proof fn lemma_entry(file: Seq<u8>, b: usize, out: Seq<u8>, k: int)
    requires
        file.len() >= 1,
        b > 0,
        8 * file.len() <= usize::MAX,
        div_ceil(8 * file.len() as int, b as int) * b <= usize::MAX,
        out.len() == div_ceil(encoded_size(file, b), 8),
        holds_prefix(out, encoded_bits(file, b)),
        0 <= k < frequency_table_of(field_keys(file, b as int)).len(),
    ensures
        entry_reads_back(file, b, out, k),
{
    lemma_file_tables(file, b);
    law_encoded_length(file, b);
    let vals = field_keys(file, b as int);
    let t = frequency_table_of(vals);
    let codes = file_codes(file, b as int);
    let tp = table_parts(file, b);
    let bp = body_parts(file, b);
    let e = encoded_bits(file, b);
    let header = pair_bits((b >> 8usize) as u8, b as u8);
    assert(header.len() == 16);
    assert(e == header + concat_bits(tp) + concat_bits(bp));
    let s = entry_start(b as int, codes, k);
    lemma_table_starts(file, b, k);
    let part = tp[k];
    let l = codes[k].len() as int;
    let lb = pair_bits(((l as u16) >> 8u16) as u8, (l as u16) as u8);
    assert(part == key_bits(t[k].0) + lb + codes[k]);
    assert(t[k].0.1 == b);
    assert(key_bits(t[k].0).len() == b);
    assert(lb.len() == 16);
    // every bit of the part, read from the output
    assert forall|i: int| 0 <= i < part.len() implies #[trigger] bit_of(out, s + i) == part[i] by {
        lemma_concat_index(tp, k, i);
        let c = concat_bits(tp);
        let q = parts_length(tp, k) + i;
        lemma_parts_length_monotone(tp, k, k);
        assert((header + c)[16 + q] == c[q]);
        assert(e[16 + q] == (header + c)[16 + q]);
        assert(s + i == 16 + q);
        lemma_out_bits(file, b, out, s + i);
    }
    // the field
    law_table_keys_are_values(vals);
    let j = choose|j: int| 0 <= j < vals.len() && vals[j] == #[trigger] t[k].0;
    lemma_key_bits(file, b, j);
    assert forall|i: int| 0 <= i < b implies source_bits(out, s, b as int)[i] == source_bits(
        file,
        j * b,
        b as int,
    )[i] by {
        assert(bit_of(out, s + i) == part[i]);
    }
    assert(source_bits(out, s, b as int) =~= source_bits(file, j * b, b as int));
    // the length of the code
    assert forall|i: int| 0 <= i < 16 implies source_bits(out, s + b, 16)[i] == lb[i] by {
        assert(bit_of(out, s + (b + i)) == part[b + i]);
    }
    assert(source_bits(out, s + b, 16) =~= lb);
    law_pair_value(((l as u16) >> 8u16) as u8, (l as u16) as u8);
    lemma_u16_bytes(l as u16);
    // the code
    assert forall|i: int| 0 <= i < l implies source_bits(out, s + b + 16, l)[i] == codes[k][i] by {
        assert(bit_of(out, s + (b + 16 + i)) == part[b + 16 + i]);
    }
    assert(source_bits(out, s + b + 16, l) =~= codes[k]);
}

/// Every table entry of an encoded file holds, from where the entries before
/// it end: the bits of a field of the file (the entry's field), the length
/// of this entry's own code in sixteen bits, and this entry's code, first
/// bit first, so the table reads back as each field with its own code.
pub proof fn law_encoded_table_entries(file: Seq<u8>, b: usize, out: Seq<u8>)
    requires
        file.len() >= 1,
        b > 0,
        8 * file.len() <= usize::MAX,
        div_ceil(8 * file.len() as int, b as int) * b <= usize::MAX,
        out.len() == div_ceil(encoded_size(file, b), 8),
        holds_prefix(out, encoded_bits(file, b)),
    ensures
        forall|k: int|
            0 <= k < frequency_table_of(field_keys(file, b as int)).len() ==> #[trigger]
                entry_reads_back(file, b, out, k),
{
    assert forall|k: int| 0 <= k < frequency_table_of(field_keys(file, b as int)).len() implies
        #[trigger] entry_reads_back(file, b, out, k) by {
        lemma_entry(file, b, out, k);
    }
}

/// The code of field `j`, read back from the bytes `out` of a file encoded
/// with fields of `b` bits: the field has an entry in the table, and from
/// where the table and the codes of the fields before it end, the output
/// holds the code of that entry, first bit first.
pub open spec fn field_code_reads_back(file: Seq<u8>, b: usize, out: Seq<u8>, j: int) -> bool {
    let vals = field_keys(file, b as int);
    let t = frequency_table_of(vals);
    let codes = file_codes(file, b as int);
    let s = field_code_start(b as int, codes, t.len() as int, field_indices(file, b), j);
    &&& exists|k: int| 0 <= k < t.len() && #[trigger] t[k].0 == vals[j]
    &&& forall|k: int|
        0 <= k < t.len() && #[trigger] t[k].0 == vals[j] ==> source_bits(
            out,
            s,
            codes[k].len() as int,
        ) == codes[k]
}

proof fn lemma_body_starts(file: Seq<u8>, b: usize, j: int)
    requires
        file.len() >= 1,
        b > 0,
        8 * file.len() <= usize::MAX,
        div_ceil(8 * file.len() as int, b as int) * b <= usize::MAX,
        0 <= j <= body_parts(file, b).len(),
    ensures
        parts_length(body_parts(file, b), j) == field_code_start(
            b as int,
            file_codes(file, b as int),
            frequency_table_of(field_keys(file, b as int)).len() as int,
            field_indices(file, b),
            j,
        ) - entry_start(
            b as int,
            file_codes(file, b as int),
            frequency_table_of(field_keys(file, b as int)).len() as int,
        ),
    decreases j,
{
    if j > 0 {
        lemma_body_starts(file, b, j - 1);
    }
}

/// The code of one field of an encoded file.
proof fn lemma_field_code(file: Seq<u8>, b: usize, out: Seq<u8>, j: int)
    requires
        file.len() >= 1,
        b > 0,
        8 * file.len() <= usize::MAX,
        div_ceil(8 * file.len() as int, b as int) * b <= usize::MAX,
        out.len() == div_ceil(encoded_size(file, b), 8),
        holds_prefix(out, encoded_bits(file, b)),
        0 <= j < field_keys(file, b as int).len(),
    ensures
        field_code_reads_back(file, b, out, j),
{
    lemma_file_tables(file, b);
    law_encoded_length(file, b);
    let vals = field_keys(file, b as int);
    let t = frequency_table_of(vals);
    let codes = file_codes(file, b as int);
    let tp = table_parts(file, b);
    let bp = body_parts(file, b);
    let e = encoded_bits(file, b);
    let header = pair_bits((b >> 8usize) as u8, b as u8);
    let tl = t.len() as int;
    assert(header.len() == 16);
    assert(e == header + concat_bits(tp) + concat_bits(bp));
    let c = concat_bits(tp);
    lemma_concat_take(tp, tl);
    assert(tp.take(tl) =~= tp);
    lemma_table_starts(file, b, tl);
    lemma_body_starts(file, b, j);
    let s = field_code_start(b as int, codes, tl, field_indices(file, b), j);
    assert(s == 16 + c.len() + parts_length(bp, j));
    let fm = first_match(t, vals[j], 0);
    lemma_first_match_bounds(t, vals[j], 0);
    assert(t[fm].0 == vals[j]);
    assert(bp[j] == codes[fm]);
    law_table_entries_distinct(vals);
    assert forall|k: int| 0 <= k < t.len() && #[trigger] t[k].0 == vals[j] implies source_bits(
        out,
        s,
        codes[k].len() as int,
    ) == codes[k] by {
        if k < fm {
            assert(!(t[fm].0 == t[k].0));
        } else if k > fm {
            assert(!(t[k].0 == t[fm].0));
        }
        assert forall|i: int| 0 <= i < codes[k].len() implies source_bits(
            out,
            s,
            codes[k].len() as int,
        )[i] == codes[k][i] by {
            lemma_concat_index(bp, j, i);
            lemma_parts_length_monotone(bp, j, j);
            let q = parts_length(bp, j) + i;
            let bb = concat_bits(bp);
            assert((header + c + bb)[16 + c.len() + q] == bb[q]);
            lemma_out_bits(file, b, out, s + i);
        }
        assert(source_bits(out, s, codes[k].len() as int) =~= codes[k]);
    }
}

/// After the table, an encoded file holds the code of every field of the
/// file in turn: each field has an entry, and the bits from where the codes
/// of the fields before it end are the code of that entry.
pub proof fn law_encoded_field_codes(file: Seq<u8>, b: usize, out: Seq<u8>)
    requires
        file.len() >= 1,
        b > 0,
        8 * file.len() <= usize::MAX,
        div_ceil(8 * file.len() as int, b as int) * b <= usize::MAX,
        out.len() == div_ceil(encoded_size(file, b), 8),
        holds_prefix(out, encoded_bits(file, b)),
    ensures
        forall|j: int|
            0 <= j < field_keys(file, b as int).len() ==> #[trigger] field_code_reads_back(
                file,
                b,
                out,
                j,
            ),
{
    assert forall|j: int| 0 <= j < field_keys(file, b as int).len() implies
        #[trigger] field_code_reads_back(file, b, out, j) by {
        lemma_field_code(file, b, out, j);
    }
}

/// An encoded file starts with the field length in sixteen bits, and ends
/// right after the code of the last field of the file, rounded up to a
/// whole byte with zero bits.
pub proof fn law_encoded_header_and_end(file: Seq<u8>, b: usize, out: Seq<u8>)
    requires
        file.len() >= 1,
        b > 0,
        8 * file.len() <= usize::MAX,
        div_ceil(8 * file.len() as int, b as int) * b <= usize::MAX,
        out.len() == div_ceil(encoded_size(file, b), 8),
        holds_prefix(out, encoded_bits(file, b)),
    ensures
        bits_value(source_bits(out, 0, 16)) == (b as u16) as int,
        b < 0x10000 ==> bits_value(source_bits(out, 0, 16)) == b,
        ({
            let vals = field_keys(file, b as int);
            let codes = file_codes(file, b as int);
            let end = field_code_start(
                b as int,
                codes,
                frequency_table_of(vals).len() as int,
                field_indices(file, b),
                vals.len() as int,
            );
            &&& end <= 8 * out.len() < end + 8
            &&& forall|p: int| end <= p < 8 * out.len() ==> !#[trigger] bit_of(out, p)
        }),
{
    lemma_file_tables(file, b);
    law_encoded_length(file, b);
    let vals = field_keys(file, b as int);
    let t = frequency_table_of(vals);
    let tp = table_parts(file, b);
    let bp = body_parts(file, b);
    let e = encoded_bits(file, b);
    let header = pair_bits((b >> 8usize) as u8, b as u8);
    let tl = t.len() as int;
    assert(e == header + concat_bits(tp) + concat_bits(bp));
    // the header
    lemma_div_ceil_bytes(encoded_size(file, b));
    assert forall|i: int| 0 <= i < 16 implies source_bits(out, 0, 16)[i] == header[i] by {
        lemma_out_bits(file, b, out, i);
    }
    assert(source_bits(out, 0, 16) =~= header);
    law_pair_value((b >> 8usize) as u8, b as u8);
    lemma_usize_bytes(b);
    // the end
    lemma_concat_take(tp, tl);
    assert(tp.take(tl) =~= tp);
    lemma_table_starts(file, b, tl);
    let m = bp.len() as int;
    lemma_concat_take(bp, m);
    assert(bp.take(m) =~= bp);
    lemma_body_starts(file, b, m);
    let end = field_code_start(b as int, file_codes(file, b as int), tl, field_indices(file, b), m);
    assert(e.len() == end);
    let size = encoded_size(file, b);
    assert(8 * div_ceil(size, 8) < size + 8);
}

proof fn lemma_usize_bytes(b: usize)
    by (bit_vector)
    ensures
        ((b >> 8usize) as u8) * 256 + (b as u8) == (b as u16),
{
}

/// Cutting a file into fields of `b` bits: there are just enough fields to
/// hold every bit of the file, field `j` holds bits `j * b ..` of the file
/// (zero past its end) and counts how many of them lie past its end.
pub proof fn law_fields_cut_file(file: Seq<u8>, b: usize)
    requires
        b > 0,
        div_ceil(8 * file.len() as int, b as int) * b <= usize::MAX,
    ensures
        ({
            let vals = field_keys(file, b as int);
            &&& vals.len() * b >= 8 * file.len()
            &&& vals.len() >= 1 ==> (vals.len() - 1) * b < 8 * file.len()
            &&& forall|j: int|
                0 <= j < vals.len() ==> {
                    &&& key_bits(#[trigger] vals[j]) == source_bits(file, j * b, b as int)
                    &&& vals[j].1 == b
                    &&& (j + 1) * b <= 8 * file.len() ==> vals[j].2 == 0
                    &&& (j + 1) * b > 8 * file.len() ==> vals[j].2 == (j + 1) * b - 8
                        * file.len()
                }
        }),
{
    let vals = field_keys(file, b as int);
    let a = 8 * file.len() as int;
    let bb = b as int;
    let n = vals.len() as int;
    assert(n == div_ceil(a, bb));
    assert(n * bb >= a && (n >= 1 ==> (n - 1) * bb < a)) by (nonlinear_arith)
        requires
            n == a / bb + if a % bb == 0 {
                0int
            } else {
                1int
            },
            bb > 0,
            a >= 0,
    {
        assert(a == bb * (a / bb) + a % bb);
    }
    assert forall|j: int| 0 <= j < n implies {
        &&& key_bits(#[trigger] vals[j]) == source_bits(file, j * b, b as int)
        &&& vals[j].1 == b
        &&& (j + 1) * b <= 8 * file.len() ==> vals[j].2 == 0
        &&& (j + 1) * b > 8 * file.len() ==> vals[j].2 == (j + 1) * b - 8 * file.len()
    } by {
        lemma_key_bits(file, b, j);
        assert(j * b + b == (j + 1) * b) by (nonlinear_arith);
        assert((j + 1) * bb <= n * bb) by (nonlinear_arith)
            requires
                j < n,
                bb > 0,
        ;
        assert(crate::bin_field::overhang(file.len() as int, j * b, b as int) <= usize::MAX);
    }
}

} // verus!
