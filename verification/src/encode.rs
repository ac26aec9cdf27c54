//! Sizes of an encoded file, and the encoder itself.
//!
//! An encoded file is a bit string: the field length in 16 bits; then, for
//! every entry of the frequency table, the field, the length of its code in
//! 16 bits and the code; then the code of every field of the file in turn;
//! then zero bits up to a whole byte.
use vstd::prelude::*;

use crate::bin_field::{
    key_of, keys_match, law_write_places_field_bits, law_write_whole_bytes,
    source_bits, write_bin_field_into_pos, write_bytes, write_defined, BinField,
};
use crate::bits::{bit_of, byte_at, lemma_zero_bit};
use crate::encode_laws::{
    entry_reads_back, field_code_reads_back, field_code_start, law_encoded_field_codes,
    law_encoded_header_and_end, law_encoded_table_entries,
};
use crate::field_laws::bits_value;
use crate::frequency::{
    create_frequency_table, div_ceil, field_keys, file_vec_into_bin_vec, first_match,
    frequency_table_of, get_index_of_bin_field_in_frequency_table, keys_of, law_counts_add_up,
    law_counts_are_matches, law_counts_positive, law_every_value_in_table,
    law_table_keys_are_values, lemma_entry_le_total, lemma_first_match_bounds, lemma_table_step,
    match_count, table_view, total_count,
    FrequencyOfField,
};
use crate::huffman::{
    create_huffman_code, entries_state, frequencies, huffman_defined, huffman_result, seq_sum,
};
use crate::huffman_laws::{
    is_prefix, law_codes_are_prefix_free, law_codes_nonempty, law_positive_frequencies_defined,
    positive_frequencies,
};

verus! {

/// A field of no significant bits whose two bytes hold `x`, high byte first.
pub fn u16_into_bin_field(x: u16) -> (field: BinField)
    ensures
        field.data@ == seq![(x >> 8u16) as u8, x as u8],
        field.data@.len() == 2 && field.data@[0] * 256 + field.data@[1] == x,
        field.length == 0,
        field.padding_length == 0,
{
    proof {
        lemma_u16_split(x);
    }
    let mut bin_field = BinField { padding_length: 0, length: 0, data: vec![0u8, 0u8] };
    bin_field.data.set(0, #[verifier::truncate] ((x >> 8u16) as u8));
    bin_field.data.set(1, #[verifier::truncate] (x as u8));
    assert(bin_field.data@ =~= seq![(x >> 8u16) as u8, x as u8]);
    bin_field
}

proof fn lemma_u16_split(x: u16)
    by (bit_vector)
    ensures
        ((x >> 8u16) as u8) * 256 + (x as u8) == x,
{
}

/// The largest of the first `n` values bounds each of them, and is one of
/// them unless it is zero.
pub proof fn law_max_prefix(s: Seq<int>, n: int)
    requires
        0 <= n <= s.len(),
    ensures
        forall|i: int| 0 <= i < n ==> #[trigger] s[i] <= max_prefix(s, n),
        max_prefix(s, n) == 0 || exists|i: int| 0 <= i < n && #[trigger] s[i] == max_prefix(s, n),
    decreases n,
{
    if n > 0 {
        law_max_prefix(s, n - 1);
    }
}

/// Code lengths of a coder table.
pub open spec fn code_lengths(t: Seq<(usize, Vec<usize>, BinField)>) -> Seq<int> {
    Seq::new(t.len(), |i: int| t[i].2.length as int)
}

/// The largest of the first `n` values, or zero.
pub open spec fn max_prefix(s: Seq<int>, n: int) -> int
    decreases n,
{
    if n <= 0 {
        0
    } else {
        let m = max_prefix(s, n - 1);
        if m < s[n - 1] {
            s[n - 1]
        } else {
            m
        }
    }
}

/// The longest code of a coder table, or zero for an empty table.
pub fn _get_max_size_of_bin_field(huffman_table: &Vec<(usize, Vec<usize>, BinField)>) -> (max_length:
    usize)
    ensures
        max_length == max_prefix(code_lengths(huffman_table@), huffman_table@.len() as int),
        forall|i: int|
            0 <= i < huffman_table@.len() ==> (#[trigger] huffman_table@[i]).2.length
                <= max_length,
        max_length == 0 || exists|i: int|
            0 <= i < huffman_table@.len() && (#[trigger] huffman_table@[i]).2.length == max_length,
{
    proof {
        law_max_prefix(code_lengths(huffman_table@), huffman_table@.len() as int);
        assert forall|i: int| 0 <= i < huffman_table@.len() implies (#[trigger] huffman_table@[i]).2.length
            == code_lengths(huffman_table@)[i] by {}
    }
    let mut max_length: usize = 0;
    let mut i: usize = 0;
    while i < huffman_table.len()
        invariant
            0 <= i <= huffman_table@.len(),
            max_length == max_prefix(code_lengths(huffman_table@), i as int),
        decreases huffman_table@.len() - i,
    {
        if max_length < huffman_table[i].2.length {
            max_length = huffman_table[i].2.length;
        }
        i = i + 1;
    }
    max_length
}

/// `sum over i < n of lens[i] * (freqs[i] + extra)`.
pub open spec fn weighted_length(lens: Seq<int>, freqs: Seq<int>, extra: int, n: int) -> int
    decreases n,
{
    if n <= 0 {
        0
    } else {
        weighted_length(lens, freqs, extra, n - 1) + lens[n - 1] * (freqs[n - 1] + extra)
    }
}

/// Frequencies of a table, in order.
pub open spec fn table_frequencies(t: Seq<FrequencyOfField>) -> Seq<int> {
    Seq::new(t.len(), |i: int| t[i].frequency as int)
}

/// Bits of an encoded file: the header and the table (16 bits, then the
/// field, 16 bits and the code for each of `entries` entries) and every
/// code written once per occurrence, besides the code written in the table.
pub open spec fn output_size(
    lens: Seq<int>,
    freqs: Seq<int>,
    entries: int,
    field_length: int,
) -> int {
    weighted_length(lens, freqs, 1, lens.len() as int) + 16 + entries * (field_length + 16)
}

proof fn lemma_weighted_length_monotone(lens: Seq<int>, freqs: Seq<int>, extra: int, i: int, n: int)
    requires
        0 <= i <= n <= lens.len(),
        n <= freqs.len(),
        extra >= 0,
        forall|k: int| 0 <= k < n ==> #[trigger] lens[k] >= 0 && freqs[k] >= 0,
    ensures
        0 <= weighted_length(lens, freqs, extra, i) <= weighted_length(lens, freqs, extra, n),
    decreases n,
{
    if n > 0 {
        if i < n {
            lemma_weighted_length_monotone(lens, freqs, extra, i, n - 1);
        } else {
            lemma_weighted_length_monotone(lens, freqs, extra, i - 1, n - 1);
        }
        assert(lens[n - 1] >= 0 && freqs[n - 1] >= 0);
        assert(lens[n - 1] * (freqs[n - 1] + extra) >= 0) by (nonlinear_arith)
            requires
                lens[n - 1] >= 0,
                freqs[n - 1] + extra >= 0,
        ;
    }
}

/// The number of bits of the encoded file that a coder table and a
/// frequency table describe.
pub fn get_output_size(
    huffman_table: &Vec<(usize, Vec<usize>, BinField)>,
    frequency_table: &Vec<FrequencyOfField>,
) -> (size: usize)
    requires
        frequency_table@.len() >= 1,
        huffman_table@.len() <= frequency_table@.len(),
        forall|i: int|
            0 <= i < huffman_table@.len() ==> #[trigger] frequency_table@[i].frequency < usize::MAX,
        output_size(
            code_lengths(huffman_table@),
            table_frequencies(frequency_table@),
            frequency_table@.len() as int,
            frequency_table@[0].field.length as int,
        ) <= usize::MAX,
    ensures
        size == output_size(
            code_lengths(huffman_table@),
            table_frequencies(frequency_table@),
            frequency_table@.len() as int,
            frequency_table@[0].field.length as int,
        ),
{
    let ghost lens = code_lengths(huffman_table@);
    let ghost freqs = table_frequencies(frequency_table@);
    let ghost h = huffman_table@.len() as int;
    let t = frequency_table.len();
    let l = frequency_table[0].field.length;
    proof {
        lemma_weighted_length_monotone(lens, freqs, 1, 0, h);
        assert(t * (l + 16) >= l + 16) by (nonlinear_arith)
            requires
                t >= 1,
                l + 16 >= 0,
        ;
    }
    let mut compressed_size: usize = 0;
    let mut i: usize = 0;
    while i < huffman_table.len()
        invariant
            0 <= i <= h,
            h == huffman_table@.len(),
            h <= frequency_table@.len(),
            lens == code_lengths(huffman_table@),
            freqs == table_frequencies(frequency_table@),
            forall|k: int| 0 <= k < h ==> #[trigger] frequency_table@[k].frequency < usize::MAX,
            weighted_length(lens, freqs, 1, h) <= usize::MAX,
            compressed_size == weighted_length(lens, freqs, 1, i as int),
        decreases h - i,
    {
        proof {
            lemma_weighted_length_monotone(lens, freqs, 1, i + 1, h);
        }
        compressed_size = compressed_size + huffman_table[i].2.length * (frequency_table[i].frequency
            + 1);
        i = i + 1;
    }
    compressed_size = compressed_size + 16 + frequency_table.len() * (frequency_table[0].field.length
        + 16);
    compressed_size
}

/// Bits taken by the codes when every code is written once per occurrence.
pub fn pure_compressed_size(
    huffman_table: &Vec<(usize, Vec<usize>, BinField)>,
    frequency_table: &Vec<FrequencyOfField>,
) -> (size: usize)
    requires
        huffman_table@.len() <= frequency_table@.len(),
        weighted_length(
            code_lengths(huffman_table@),
            table_frequencies(frequency_table@),
            0,
            huffman_table@.len() as int,
        ) <= usize::MAX,
    ensures
        size == weighted_length(
            code_lengths(huffman_table@),
            table_frequencies(frequency_table@),
            0,
            huffman_table@.len() as int,
        ),
{
    let ghost lens = code_lengths(huffman_table@);
    let ghost freqs = table_frequencies(frequency_table@);
    let ghost h = huffman_table@.len() as int;
    let mut compressed_size: usize = 0;
    let mut i: usize = 0;
    while i < huffman_table.len()
        invariant
            0 <= i <= h,
            h == huffman_table@.len(),
            h <= frequency_table@.len(),
            lens == code_lengths(huffman_table@),
            freqs == table_frequencies(frequency_table@),
            weighted_length(lens, freqs, 0, h) <= usize::MAX,
            compressed_size == weighted_length(lens, freqs, 0, i as int),
        decreases h - i,
    {
        proof {
            lemma_weighted_length_monotone(lens, freqs, 0, i + 1, h);
        }
        compressed_size = compressed_size + huffman_table[i].2.length * frequency_table[i].frequency;
        i = i + 1;
    }
    compressed_size
}

/// The sixteen bits of the two bytes `hi, lo`, high bit of `hi` first.
pub open spec fn pair_bits(hi: u8, lo: u8) -> Seq<bool> {
    source_bits(seq![hi, lo], 0, 16)
}

/// A length as written in an encoded file: its low sixteen bits.
pub open spec fn length_bits(len: int) -> Seq<bool> {
    pair_bits(((len as u16) >> 8u16) as u8, (len as u16) as u8)
}

/// The significant bits of a field with the given key.
pub open spec fn key_bits(key: (Seq<u8>, usize, usize)) -> Seq<bool> {
    Seq::new(key.1 as nat, |k: int| bit_of(key.0, 8 * key.0.len() - key.1 + k))
}

/// The parts one after the other.
pub open spec fn concat_bits(parts: Seq<Seq<bool>>) -> Seq<bool>
    decreases parts.len(),
{
    if parts.len() == 0 {
        Seq::empty()
    } else {
        concat_bits(parts.drop_last()) + parts.last()
    }
}

/// The table entry of an encoded file: the field, its code's length, its
/// code.
pub open spec fn table_entry_bits(key: (Seq<u8>, usize, usize), code: Seq<bool>) -> Seq<bool> {
    key_bits(key) + length_bits(code.len() as int) + code
}

/// The frequencies of the table of a file cut into fields of `b` bits.
pub open spec fn file_frequencies(file: Seq<u8>, b: int) -> Seq<int> {
    let table = frequency_table_of(field_keys(file, b));
    Seq::new(table.len(), |k: int| table[k].1 as int)
}

/// The codes of the table of a file cut into fields of `b` bits.
pub open spec fn file_codes(file: Seq<u8>, b: int) -> Seq<Seq<bool>> {
    huffman_result(file_frequencies(file, b)).2
}

/// The encoded file, bit by bit, before the zero bits that fill its last
/// byte.
pub open spec fn encoded_bits(file: Seq<u8>, b: usize) -> Seq<bool> {
    let vals = field_keys(file, b as int);
    let table = frequency_table_of(vals);
    let codes = file_codes(file, b as int);
    pair_bits((b >> 8usize) as u8, b as u8) + concat_bits(
        Seq::new(table.len(), |k: int| table_entry_bits(table[k].0, codes[k])),
    ) + concat_bits(Seq::new(vals.len(), |j: int| codes[first_match(table, vals[j], 0)]))
}

/// The number of bits of the encoded file, as `get_output_size` counts them.
pub open spec fn encoded_size(file: Seq<u8>, b: usize) -> int {
    let codes = file_codes(file, b as int);
    output_size(
        Seq::new(codes.len(), |k: int| codes[k].len() as int),
        file_frequencies(file, b as int),
        codes.len() as int,
        b as int,
    )
}

proof fn lemma_seq_sum_counts(t: Seq<((Seq<u8>, usize, usize), nat)>)
    ensures
        seq_sum(Seq::new(t.len(), |k: int| t[k].1 as int)) == total_count(t),
    decreases t.len(),
{
    if t.len() > 0 {
        lemma_seq_sum_counts(t.drop_last());
        assert(Seq::new(t.len(), |k: int| t[k].1 as int).drop_last() =~= Seq::new(
            t.drop_last().len(),
            |k: int| t.drop_last()[k].1 as int,
        ));
    }
}

/// Sum of the lengths of the first `n` parts.
pub open spec fn parts_length(parts: Seq<Seq<bool>>, n: int) -> int
    decreases n,
{
    if n <= 0 {
        0
    } else {
        parts_length(parts, n - 1) + parts[n - 1].len()
    }
}

pub(crate) proof fn lemma_concat_take(parts: Seq<Seq<bool>>, n: int)
    requires
        0 <= n <= parts.len(),
    ensures
        concat_bits(parts.take(n)).len() == parts_length(parts, n),
        n < parts.len() ==> concat_bits(parts.take(n + 1)) == concat_bits(parts.take(n))
            + parts[n],
    decreases n,
{
    if n > 0 {
        lemma_concat_take(parts, n - 1);
        assert(parts.take(n).drop_last() =~= parts.take(n - 1));
    }
    if n < parts.len() {
        assert(parts.take(n + 1).drop_last() =~= parts.take(n));
    }
}

pub(crate) proof fn lemma_parts_length_monotone(parts: Seq<Seq<bool>>, i: int, n: int)
    requires
        0 <= i <= n <= parts.len(),
    ensures
        0 <= parts_length(parts, i) <= parts_length(parts, n),
    decreases n,
{
    if n > 0 {
        if i < n {
            lemma_parts_length_monotone(parts, i, n - 1);
        } else {
            lemma_parts_length_monotone(parts, i - 1, n - 1);
        }
    }
}

/// `sum over k < n of lens[k]`.
pub open spec fn length_sum(lens: Seq<int>, n: int) -> int
    decreases n,
{
    if n <= 0 {
        0
    } else {
        length_sum(lens, n - 1) + lens[n - 1]
    }
}

proof fn lemma_weighted_split(lens: Seq<int>, freqs: Seq<int>, n: int)
    requires
        0 <= n <= lens.len(),
        n <= freqs.len(),
    ensures
        weighted_length(lens, freqs, 1, n) == weighted_length(lens, freqs, 0, n) + length_sum(
            lens,
            n,
        ),
    decreases n,
{
    if n > 0 {
        lemma_weighted_split(lens, freqs, n - 1);
        let l = lens[n - 1];
        let f = freqs[n - 1];
        assert(l * (f + 1) == l * (f + 0) + l) by (nonlinear_arith);
    }
}

/// Sum over the first `n` keys of the length of the code of their entry.
pub open spec fn body_length(
    lens: Seq<int>,
    t: Seq<((Seq<u8>, usize, usize), nat)>,
    vals: Seq<(Seq<u8>, usize, usize)>,
    n: int,
) -> int
    decreases n,
{
    if n <= 0 {
        0
    } else {
        body_length(lens, t, vals, n - 1) + lens[first_match(t, vals[n - 1], 0)]
    }
}

/// Sum over the first `kk` entries of the code length times the number of
/// the first `n` keys that match the entry.
pub open spec fn grouped_length(
    lens: Seq<int>,
    t: Seq<((Seq<u8>, usize, usize), nat)>,
    vals: Seq<(Seq<u8>, usize, usize)>,
    n: int,
    kk: int,
) -> int
    decreases kk,
{
    if kk <= 0 {
        0
    } else {
        grouped_length(lens, t, vals, n, kk - 1) + lens[kk - 1] * match_count(t, vals, kk - 1, n)
    }
}

proof fn lemma_grouped_step(
    lens: Seq<int>,
    t: Seq<((Seq<u8>, usize, usize), nat)>,
    vals: Seq<(Seq<u8>, usize, usize)>,
    n: int,
    kk: int,
)
    requires
        1 <= n <= vals.len(),
        0 <= kk,
    ensures
        grouped_length(lens, t, vals, n, kk) == grouped_length(lens, t, vals, n - 1, kk) + if 0
            <= first_match(t, vals[n - 1], 0) < kk {
            lens[first_match(t, vals[n - 1], 0)]
        } else {
            0
        },
    decreases kk,
{
    if kk > 0 {
        lemma_grouped_step(lens, t, vals, n, kk - 1);
        let l = lens[kk - 1];
        let c = match_count(t, vals, kk - 1, n - 1) as int;
        assert(l * (c + 1) == l * c + l) by (nonlinear_arith);
    }
}

proof fn lemma_body_grouped(
    lens: Seq<int>,
    t: Seq<((Seq<u8>, usize, usize), nat)>,
    vals: Seq<(Seq<u8>, usize, usize)>,
    n: int,
)
    requires
        0 <= n <= vals.len(),
        forall|j: int| 0 <= j < n ==> #[trigger] first_match(t, vals[j], 0) < t.len(),
    ensures
        body_length(lens, t, vals, n) == grouped_length(lens, t, vals, n, t.len() as int),
    decreases n,
{
    if n > 0 {
        lemma_body_grouped(lens, t, vals, n - 1);
        lemma_grouped_step(lens, t, vals, n, t.len() as int);
        assert(first_match(t, vals[n - 1], 0) < t.len());
        lemma_first_match_nonneg(t, vals[n - 1]);
    } else {
        lemma_grouped_zero(lens, t, vals, t.len() as int);
    }
}

proof fn lemma_first_match_nonneg(t: Seq<((Seq<u8>, usize, usize), nat)>, v: (Seq<u8>, usize, usize))
    ensures
        first_match(t, v, 0) >= 0,
{
    lemma_first_match_from(t, v, 0);
}

proof fn lemma_first_match_from(
    t: Seq<((Seq<u8>, usize, usize), nat)>,
    v: (Seq<u8>, usize, usize),
    i: int,
)
    requires
        i >= 0,
    ensures
        first_match(t, v, i) >= i || first_match(t, v, i) == t.len(),
    decreases t.len() - i,
{
    if 0 <= i < t.len() {
        lemma_first_match_from(t, v, i + 1);
    }
}

proof fn lemma_grouped_zero(
    lens: Seq<int>,
    t: Seq<((Seq<u8>, usize, usize), nat)>,
    vals: Seq<(Seq<u8>, usize, usize)>,
    kk: int,
)
    ensures
        grouped_length(lens, t, vals, 0, kk) == 0,
    decreases kk,
{
    if kk > 0 {
        lemma_grouped_zero(lens, t, vals, kk - 1);
        assert(lens[kk - 1] * 0 == 0);
    }
}

proof fn lemma_grouped_is_weighted(
    lens: Seq<int>,
    t: Seq<((Seq<u8>, usize, usize), nat)>,
    vals: Seq<(Seq<u8>, usize, usize)>,
    freqs: Seq<int>,
    kk: int,
)
    requires
        0 <= kk <= freqs.len(),
        forall|k: int| 0 <= k < kk ==> #[trigger] freqs[k] == match_count(t, vals, k, vals.len() as int),
    ensures
        grouped_length(lens, t, vals, vals.len() as int, kk) == weighted_length(lens, freqs, 0, kk),
    decreases kk,
{
    if kk > 0 {
        lemma_grouped_is_weighted(lens, t, vals, freqs, kk - 1);
        assert(freqs[kk - 1] == match_count(t, vals, kk - 1, vals.len() as int));
        assert(freqs[kk - 1] + 0 == freqs[kk - 1]);
    }
}

proof fn lemma_table_parts_length(parts: Seq<Seq<bool>>, lens: Seq<int>, b: int, n: int)
    requires
        0 <= n <= parts.len(),
        n <= lens.len(),
        b >= 0,
        forall|k: int| 0 <= k < n ==> #[trigger] parts[k].len() == b + 16 + lens[k],
    ensures
        parts_length(parts, n) == n * (b + 16) + length_sum(lens, n),
    decreases n,
{
    if n > 0 {
        lemma_table_parts_length(parts, lens, b, n - 1);
        assert(n * (b + 16) == (n - 1) * (b + 16) + (b + 16)) by (nonlinear_arith);
        assert(parts[n - 1].len() == b + 16 + lens[n - 1]);
    } else {
        assert(n * (b + 16) == 0) by (nonlinear_arith)
            requires
                n == 0,
        ;
    }
}

proof fn lemma_body_parts_length(
    parts: Seq<Seq<bool>>,
    lens: Seq<int>,
    t: Seq<((Seq<u8>, usize, usize), nat)>,
    vals: Seq<(Seq<u8>, usize, usize)>,
    n: int,
)
    requires
        0 <= n <= parts.len(),
        n <= vals.len(),
        forall|j: int|
            0 <= j < n ==> #[trigger] parts[j].len() == lens[first_match(t, vals[j], 0)],
    ensures
        parts_length(parts, n) == body_length(lens, t, vals, n),
    decreases n,
{
    if n > 0 {
        lemma_body_parts_length(parts, lens, t, vals, n - 1);
    }
}

/// After writing bits `bits` at the end of what was written so far, the
/// buffer holds the longer prefix.
proof fn lemma_append_bits(
    before: Seq<u8>,
    after: Seq<u8>,
    prefix: Seq<bool>,
    bits: Seq<bool>,
)
    requires
        after.len() == before.len(),
        prefix.len() + bits.len() <= 8 * before.len(),
        forall|p: int|
            0 <= p < 8 * before.len() ==> #[trigger] bit_of(before, p) == (p < prefix.len()
                && prefix[p]),
        forall|p: int|
            0 <= p < 8 * before.len() ==> #[trigger] bit_of(after, p) == (bit_of(before, p) || (
            prefix.len() <= p < prefix.len() + bits.len() && bits[p - prefix.len()])),
    ensures
        forall|p: int|
            0 <= p < 8 * after.len() ==> #[trigger] bit_of(after, p) == (p < (prefix + bits).len()
                && (prefix + bits)[p]),
{
    assert forall|p: int| 0 <= p < 8 * after.len() implies #[trigger] bit_of(after, p) == (p < (
    prefix + bits).len() && (prefix + bits)[p]) by {
        assert(bit_of(before, p) == (p < prefix.len() && prefix[p]));
    }
}

/// The table entries and the body of an encoded file, part by part.
pub open spec fn table_parts(file: Seq<u8>, b: usize) -> Seq<Seq<bool>> {
    let table = frequency_table_of(field_keys(file, b as int));
    let codes = file_codes(file, b as int);
    Seq::new(table.len(), |k: int| table_entry_bits(table[k].0, codes[k]))
}

/// The code of every field of the file, part by part.
pub open spec fn body_parts(file: Seq<u8>, b: usize) -> Seq<Seq<bool>> {
    let vals = field_keys(file, b as int);
    let table = frequency_table_of(vals);
    let codes = file_codes(file, b as int);
    Seq::new(vals.len(), |j: int| codes[first_match(table, vals[j], 0)])
}

/// What holds of the fields, the table and the codes of a file cut into
/// fields of `b` bits, when the file is not empty.
pub(crate) proof fn lemma_file_tables(file: Seq<u8>, b: usize)
    requires
        file.len() >= 1,
        b > 0,
        8 * file.len() <= usize::MAX,
        div_ceil(8 * file.len() as int, b as int) * b <= usize::MAX,
    ensures
        ({
            let vals = field_keys(file, b as int);
            let t = frequency_table_of(vals);
            let freqs = file_frequencies(file, b as int);
            let codes = file_codes(file, b as int);
            &&& 1 <= vals.len() < usize::MAX
            &&& 1 <= t.len() <= vals.len()
            &&& positive_frequencies(freqs)
            &&& huffman_defined(freqs)
            &&& seq_sum(freqs) == vals.len()
            &&& codes.len() == t.len()
            &&& forall|k: int| 0 <= k < t.len() ==> #[trigger] t[k].0.1 == b
            &&& forall|k: int| 0 <= k < t.len() ==> #[trigger] codes[k].len() >= 1
            &&& forall|k: int| 0 <= k < t.len() ==> #[trigger] t[k].1 <= vals.len()
            &&& forall|j: int| 0 <= j < vals.len() ==> #[trigger] first_match(t, vals[j], 0) < t.len()
        }),
{
    let vals = field_keys(file, b as int);
    let t = frequency_table_of(vals);
    let freqs = file_frequencies(file, b as int);
    let m = vals.len() as int;
    let a = 8 * file.len() as int;
    assert(div_ceil(a, b as int) >= 1) by (nonlinear_arith)
        requires
            a >= 8,
            b >= 1,
    {
        if a / (b as int) == 0 {
            assert(a % (b as int) == a);
        }
    }
    assert(m >= 1);
    if b >= 2 {
        assert(m * b >= 2 * m) by (nonlinear_arith)
            requires
                b >= 2,
                m >= 1,
        ;
    } else {
        assert(div_ceil(a, 1) == a) by (nonlinear_arith);
        assert(m == a);
        assert(usize::MAX % 8 == 7);
    }
    assert(m < usize::MAX);
    law_counts_add_up(vals);
    law_counts_positive(vals);
    law_every_value_in_table(vals);
    law_table_keys_are_values(vals);
    lemma_seq_sum_counts(t);
    assert(first_match(t, vals[0], 0) < t.len());
    lemma_table_len_bound(vals);
    assert forall|k: int| 0 <= k < t.len() implies #[trigger] t[k].1 <= vals.len() by {
        lemma_entry_le_total(t, k);
    }
    assert forall|k: int| 0 <= k < t.len() implies #[trigger] t[k].0.1 == b by {
        let j = choose|j: int| 0 <= j < vals.len() && vals[j] == #[trigger] t[k].0;
    }
    assert(positive_frequencies(freqs));
    law_positive_frequencies_defined(freqs);
    law_codes_nonempty(freqs);
    lemma_result_len(freqs);
}

proof fn lemma_table_len_bound(vals: Seq<(Seq<u8>, usize, usize)>)
    ensures
        frequency_table_of(vals).len() <= vals.len(),
    decreases vals.len(),
{
    if vals.len() > 0 {
        lemma_table_len_bound(vals.drop_last());
        lemma_table_step(vals);
    }
}

proof fn lemma_result_len(freqs: Seq<int>)
    requires
        freqs.len() >= 1,
    ensures
        huffman_result(freqs).2.len() == freqs.len(),
        huffman_result(freqs).0.len() == freqs.len(),
{
    crate::huffman::lemma_state_len(freqs, (freqs.len() - 1) as nat);
}


proof fn lemma_table_total(file: Seq<u8>, b: usize)
    requires
        file.len() >= 1,
        b > 0,
        8 * file.len() <= usize::MAX,
        div_ceil(8 * file.len() as int, b as int) * b <= usize::MAX,
    ensures
        ({
            let codes = file_codes(file, b as int);
            let tp = table_parts(file, b);
            let lens = Seq::new(codes.len(), |k: int| codes[k].len() as int);
            &&& concat_bits(tp).len() == parts_length(tp, tp.len() as int)
            &&& parts_length(tp, tp.len() as int) == tp.len() * (b + 16) + length_sum(
                lens,
                tp.len() as int,
            )
        }),
{
    lemma_file_tables(file, b);
    let t = frequency_table_of(field_keys(file, b as int));
    let codes = file_codes(file, b as int);
    let tp = table_parts(file, b);
    let lens = Seq::new(codes.len(), |k: int| codes[k].len() as int);
    let tl = t.len() as int;
    lemma_concat_take(tp, tl);
    assert(tp.take(tl) =~= tp);
    assert forall|k: int| 0 <= k < tl implies #[trigger] tp[k].len() == b + 16 + lens[k] by {
        assert(t[k].0.1 == b);
    }
    lemma_table_parts_length(tp, lens, b as int, tl);
}

proof fn lemma_body_total(file: Seq<u8>, b: usize)
    requires
        file.len() >= 1,
        b > 0,
        8 * file.len() <= usize::MAX,
        div_ceil(8 * file.len() as int, b as int) * b <= usize::MAX,
    ensures
        ({
            let codes = file_codes(file, b as int);
            let freqs = file_frequencies(file, b as int);
            let bp = body_parts(file, b);
            let lens = Seq::new(codes.len(), |k: int| codes[k].len() as int);
            &&& concat_bits(bp).len() == parts_length(bp, bp.len() as int)
            &&& parts_length(bp, bp.len() as int) == weighted_length(
                lens,
                freqs,
                0,
                codes.len() as int,
            )
        }),
{
    lemma_file_tables(file, b);
    let vals = field_keys(file, b as int);
    let t = frequency_table_of(vals);
    let freqs = file_frequencies(file, b as int);
    let codes = file_codes(file, b as int);
    let bp = body_parts(file, b);
    let lens = Seq::new(codes.len(), |k: int| codes[k].len() as int);
    let tl = t.len() as int;
    let m = vals.len() as int;
    lemma_concat_take(bp, m);
    assert(bp.take(m) =~= bp);
    assert forall|j: int| 0 <= j < m implies #[trigger] bp[j].len() == lens[first_match(
        t,
        vals[j],
        0,
    )] by {
        lemma_first_match_nonneg(t, vals[j]);
    }
    lemma_body_parts_length(bp, lens, t, vals, m);
    lemma_body_grouped(lens, t, vals, m);
    law_counts_are_matches(vals);
    assert forall|k: int| 0 <= k < tl implies #[trigger] freqs[k] == match_count(t, vals, k, m) by {
        assert(t[k].1 == match_count(t, vals, k, m));
    }
    lemma_grouped_is_weighted(lens, t, vals, freqs, tl);
}

/// The encoded file is as long as `get_output_size` counts.
pub proof fn law_encoded_length(file: Seq<u8>, b: usize)
    requires
        file.len() >= 1,
        b > 0,
        8 * file.len() <= usize::MAX,
        div_ceil(8 * file.len() as int, b as int) * b <= usize::MAX,
    ensures
        encoded_bits(file, b).len() == encoded_size(file, b),
{
    lemma_file_tables(file, b);
    lemma_table_total(file, b);
    lemma_body_total(file, b);
    let codes = file_codes(file, b as int);
    let freqs = file_frequencies(file, b as int);
    let lens = Seq::new(codes.len(), |k: int| codes[k].len() as int);
    lemma_weighted_split(lens, freqs, codes.len() as int);
    assert(pair_bits((b >> 8usize) as u8, b as u8).len() == 16);
}

/// The first bits of the buffer hold `written` and the rest are zero.
pub open spec fn holds_prefix(buf: Seq<u8>, written: Seq<bool>) -> bool {
    forall|p: int|
        0 <= p < 8 * buf.len() ==> #[trigger] bit_of(buf, p) == (p < written.len() && written[p])
}

/// A well-formed field of at least one bit can be written where it fits.
proof fn lemma_field_write_defined(buf_len: int, offset: usize, field: BinField)
    requires
        field.wf(),
        field.length >= 1,
        offset >= 16,
        offset + field.length <= usize::MAX,
    ensures
        write_defined(buf_len, offset as int, field.data@.len() as int, field.length as int),
{
}

/// Writing a well-formed field right after what was written so far, over
/// zero bits, extends what the buffer holds by the field's bits.
proof fn lemma_append_field(before: Seq<u8>, after: Seq<u8>, written: Seq<bool>, offset: usize, field: BinField)
    requires
        field.wf(),
        holds_prefix(before, written),
        written.len() == offset,
        offset + field.length <= 8 * before.len(),
        after == write_bytes(before, offset as int, field.data@, field.length as int),
    ensures
        after.len() == before.len(),
        holds_prefix(after, written + field.bits()),
{
    law_write_places_field_bits(before, offset, field);
    lemma_append_bits(before, after, written, field.bits());
}

/// Writing two whole bytes right after what was written so far, over zero
/// bits, extends what the buffer holds by their sixteen bits.
proof fn lemma_append_pair(before: Seq<u8>, after: Seq<u8>, written: Seq<bool>, offset: usize, data: Seq<u8>)
    requires
        data.len() == 2,
        holds_prefix(before, written),
        written.len() == offset,
        offset + 16 <= 8 * before.len(),
        after == write_bytes(before, offset as int, data, 0),
    ensures
        after.len() == before.len(),
        holds_prefix(after, written + pair_bits(data[0], data[1])),
{
    law_write_whole_bytes(before, offset, data);
    assert(data =~= seq![data[0], data[1]]);
    lemma_append_bits(before, after, written, pair_bits(data[0], data[1]));
}

#[verifier::rlimit(40)]
/// Encodes a file cut into fields of `length` bits (see the module's
/// documentation): the result holds the bits of `encoded_bits`, then zero
/// bits up to a whole byte.
pub fn encode_file_with_given_length(file: &Vec<u8>, length: usize) -> (output_file: Vec<u8>)
    requires
        file@.len() >= 1,
        length > 0,
        8 * file@.len() <= usize::MAX,
        div_ceil(8 * file@.len() as int, length as int) * length <= usize::MAX,
        encoded_size(file@, length) <= usize::MAX,
    ensures
        encoded_bits(file@, length).len() == encoded_size(file@, length),
        output_file@.len() == div_ceil(encoded_size(file@, length), 8),
        holds_prefix(output_file@, encoded_bits(file@, length)),
        forall|k: int|
            0 <= k < frequency_table_of(field_keys(file@, length as int)).len() ==> #[trigger]
                entry_reads_back(file@, length, output_file@, k),
        forall|j: int|
            0 <= j < field_keys(file@, length as int).len() ==> #[trigger] field_code_reads_back(
                file@,
                length,
                output_file@,
                j,
            ),
        bits_value(source_bits(output_file@, 0, 16)) == (length as u16) as int,
        ({
            let vals = field_keys(file@, length as int);
            let end = field_code_start(
                length as int,
                file_codes(file@, length as int),
                frequency_table_of(vals).len() as int,
                field_indices(file@, length),
                vals.len() as int,
            );
            &&& end <= 8 * output_file@.len() < end + 8
            &&& forall|p: int| end <= p < 8 * output_file@.len() ==> !#[trigger] bit_of(
                output_file@,
                p,
            )
        }),
{
    let ghost vals = field_keys(file@, length as int);
    let ghost t = frequency_table_of(vals);
    let ghost freqs = file_frequencies(file@, length as int);
    let ghost codes = file_codes(file@, length as int);
    let ghost tp = table_parts(file@, length);
    let ghost bp = body_parts(file@, length);
    let ghost size = encoded_size(file@, length);
    proof {
        lemma_file_tables(file@, length);
        lemma_table_total(file@, length);
        lemma_body_total(file@, length);
        law_encoded_length(file@, length);
        lemma_weighted_split(
            Seq::new(codes.len(), |k: int| codes[k].len() as int),
            freqs,
            codes.len() as int,
        );
    }
    let seq_of_bin_fields = file_vec_into_bin_vec(file, length);
    let frequency_table = create_frequency_table(&seq_of_bin_fields);
    proof {
        assert(frequencies(frequency_table@) =~= freqs);
    }
    let huffman_table = create_huffman_code(&frequency_table);
    proof {
        assert(code_lengths(huffman_table@) =~= Seq::new(
            codes.len(),
            |k: int| codes[k].len() as int,
        )) by {
            assert forall|k: int| 0 <= k < codes.len() implies #[trigger] huffman_table@[k].2.length
                == codes[k].len() by {
                assert(entries_state(huffman_table@).2[k] == codes[k]);
            }
        }
        assert(table_frequencies(frequency_table@) =~= freqs);
        assert(table_view(frequency_table@)[0] == t[0]);
        assert(t[0].0.1 == length);
        assert(frequency_table@[0].field.length == length);
        law_table_keys_are_values(vals);
        assert forall|i: int| 0 <= i < huffman_table@.len() implies #[trigger] frequency_table@[i].frequency
            < usize::MAX by {
            assert(table_view(frequency_table@)[i] == t[i]);
            assert(t[i].1 <= vals.len());
        }
    }
    let compressed_size = get_output_size(&huffman_table, &frequency_table);
    let out_len = compressed_size / 8 + if compressed_size % 8 == 0 {
        0
    } else {
        1
    };
    let mut output_file = vec![0u8; out_len];
    output_file[0] = #[verifier::truncate] ((frequency_table[0].field.length >> 8usize) as u8);
    output_file[1] = #[verifier::truncate] (frequency_table[0].field.length as u8);
    let ghost header = pair_bits((length >> 8usize) as u8, length as u8);
    proof {
        assert forall|p: int| 0 <= p < 8 * output_file@.len() implies #[trigger] bit_of(
            output_file@,
            p,
        ) == (p < header.len() && header[p]) by {
            if p < 16 {
                assert(byte_at(output_file@, p / 8) == byte_at(
                    seq![(length >> 8usize) as u8, length as u8],
                    p / 8,
                ));
            } else {
                assert(output_file@[p / 8] == 0u8);
                lemma_zero_bit(p % 8);
            }
        }
    }
    let ghost mut written = header;
    let mut bit_index: usize = 16;
    let mut i: usize = 0;
    proof {
        assert(tp.take(0) =~= Seq::<Seq<bool>>::empty());
        assert(written =~= header + concat_bits(tp.take(0)));
    }
    while i < frequency_table.len()
        invariant
            0 <= i <= frequency_table@.len(),
            length > 0,
            vals == field_keys(file@, length as int),
            t == frequency_table_of(vals),
            codes == file_codes(file@, length as int),
            frequency_table@.len() == t.len(),
            tp.len() == t.len(),
            table_view(frequency_table@) == t,
            huffman_table@.len() == t.len(),
            entries_state(huffman_table@).2 == codes,
            tp == table_parts(file@, length),
            forall|k: int|
                0 <= k < huffman_table@.len() ==> (#[trigger] huffman_table@[k]).2.wf(),
            forall|k: int| 0 <= k < t.len() ==> #[trigger] t[k].0.1 == length,
            forall|k: int| 0 <= k < t.len() ==> #[trigger] codes[k].len() >= 1,
            frequency_table@[0].field.length == length,
            forall|k: int|
                0 <= k < t.len() ==> exists|j: int|
                    0 <= j < vals.len() && vals[j] == #[trigger] t[k].0,
            vals == keys_of(seq_of_bin_fields@),
            forall|j: int| 0 <= j < seq_of_bin_fields@.len() ==> (#[trigger] seq_of_bin_fields@[j]).wf(),
            output_file@.len() == div_ceil(size, 8),
            16 + parts_length(tp, tp.len() as int) + parts_length(bp, bp.len() as int) == size,
            size <= usize::MAX,
            written == header + concat_bits(tp.take(i as int)),
            written.len() == bit_index,
            bit_index == 16 + parts_length(tp, i as int),
            holds_prefix(output_file@, written),
        decreases t.len() - i,
    {
        proof {
            lemma_parts_length_monotone(tp, i + 1, tp.len() as int);
            lemma_parts_length_monotone(bp, 0, bp.len() as int);
            lemma_concat_take(tp, i as int);
            let kb = key_bits(t[i as int].0);
            let lb = length_bits(codes[i as int].len() as int);
            assert(kb.len() == length);
            assert(lb.len() == 16);
            assert(tp[i as int] == table_entry_bits(t[i as int].0, codes[i as int]));
            assert(tp[i as int] == kb + lb + codes[i as int]);
            assert(tp[i as int].len() == length + 16 + codes[i as int].len());
        }
        let field = frequency_table[i].field.clone();
        let ghost before = output_file@;
        proof {
            let j = choose|j: int| 0 <= j < vals.len() && vals[j] == #[trigger] t[i as int].0;
            assert(table_view(frequency_table@)[i as int] == t[i as int]);
            assert(key_of(seq_of_bin_fields@[j]) == key_of(field));
            assert(t[i as int].0.1 == length);
            assert(field.wf());
            assert(field.bits() =~= key_bits(t[i as int].0));
            lemma_field_write_defined(before.len() as int, bit_index, field);
        }
        write_bin_field_into_pos(&mut output_file, bit_index, field);
        proof {
            lemma_append_field(before, output_file@, written, bit_index, field);
            written = written + field.bits();
        }
        bit_index = bit_index + frequency_table[0].field.length;
        let code_length = huffman_table[i].2.length;
        let length_field = u16_into_bin_field(#[verifier::truncate] (code_length as u16));
        let ghost before = output_file@;
        write_bin_field_into_pos(&mut output_file, bit_index, length_field);
        proof {
            assert(entries_state(huffman_table@).2[i as int] == codes[i as int]);
            lemma_append_pair(before, output_file@, written, bit_index, length_field.data@);
            written = written + length_bits(codes[i as int].len() as int);
        }
        bit_index = bit_index + 16;
        let code = huffman_table[i].2.clone();
        let ghost before = output_file@;
        proof {
            assert(code.bits() == codes[i as int]);
            lemma_field_write_defined(before.len() as int, bit_index, code);
        }
        write_bin_field_into_pos(&mut output_file, bit_index, code);
        proof {
            lemma_append_field(before, output_file@, written, bit_index, code);
            written = written + code.bits();
            assert(written =~= header + concat_bits(tp.take(i + 1)));
        }
        bit_index = bit_index + huffman_table[i].2.length;
        i = i + 1;
    }
    let mut j: usize = 0;
    proof {
        assert(tp.take(tp.len() as int) =~= tp);
        assert(bp.take(0) =~= Seq::<Seq<bool>>::empty());
        assert(written =~= header + concat_bits(tp) + concat_bits(bp.take(0)));
    }
    while j < seq_of_bin_fields.len()
        invariant
            0 <= j <= seq_of_bin_fields@.len(),
            vals == field_keys(file@, length as int),
            t == frequency_table_of(vals),
            codes == file_codes(file@, length as int),
            seq_of_bin_fields@.len() == vals.len(),
            bp.len() == vals.len(),
            table_view(frequency_table@) == t,
            huffman_table@.len() == t.len(),
            entries_state(huffman_table@).2 == codes,
            bp == body_parts(file@, length),
            forall|k: int|
                0 <= k < huffman_table@.len() ==> (#[trigger] huffman_table@[k]).2.wf(),
            forall|k: int| 0 <= k < t.len() ==> #[trigger] codes[k].len() >= 1,
            forall|jj: int| 0 <= jj < vals.len() ==> #[trigger] first_match(t, vals[jj], 0) < t.len(),
            vals == keys_of(seq_of_bin_fields@),
            output_file@.len() == div_ceil(size, 8),
            16 + parts_length(tp, tp.len() as int) + parts_length(bp, bp.len() as int) == size,
            size <= usize::MAX,
            written == header + concat_bits(tp) + concat_bits(bp.take(j as int)),
            written.len() == bit_index,
            bit_index == 16 + parts_length(tp, tp.len() as int) + parts_length(bp, j as int),
            holds_prefix(output_file@, written),
        decreases vals.len() - j,
    {
        proof {
            lemma_parts_length_monotone(bp, j + 1, bp.len() as int);
            lemma_parts_length_monotone(bp, 0, j as int);
            lemma_parts_length_monotone(tp, 0, tp.len() as int);
            lemma_concat_take(bp, j as int);
            let fm = first_match(t, vals[j as int], 0);
            lemma_first_match_bounds(t, vals[j as int], 0);
            assert(table_view(frequency_table@)[fm] == t[fm]);
            assert(keys_match(
                key_of(seq_of_bin_fields@[j as int]),
                key_of(frequency_table@[fm].field),
            ));
        }
        let index = get_index_of_bin_field_in_frequency_table(&frequency_table, &seq_of_bin_fields[j]);
        let code = huffman_table[index].2.clone();
        let ghost before = output_file@;
        proof {
            assert(key_of(seq_of_bin_fields@[j as int]) == vals[j as int]);
            assert(index == first_match(t, vals[j as int], 0));
            assert(code.bits() == codes[index as int]);
            assert(bp[j as int] == codes[index as int]);
            lemma_field_write_defined(before.len() as int, bit_index, code);
        }
        write_bin_field_into_pos(&mut output_file, bit_index, code);
        proof {
            lemma_append_field(before, output_file@, written, bit_index, code);
            written = written + code.bits();
            assert(written =~= header + concat_bits(tp) + concat_bits(bp.take(j + 1)));
        }
        bit_index = bit_index + huffman_table[index].2.length;
        j = j + 1;
    }
    proof {
        assert(bp.take(bp.len() as int) =~= bp);
        assert(holds_prefix(output_file@, encoded_bits(file@, length)));
        law_encoded_table_entries(file@, length, output_file@);
        law_encoded_field_codes(file@, length, output_file@);
        law_encoded_header_and_end(file@, length, output_file@);
    }
    output_file
}

proof fn lemma_concat_front(parts: Seq<Seq<bool>>)
    requires
        parts.len() >= 1,
    ensures
        concat_bits(parts) == parts[0] + concat_bits(parts.drop_first()),
    decreases parts.len(),
{
    if parts.len() == 1 {
        assert(parts.drop_last() =~= Seq::<Seq<bool>>::empty());
        assert(parts.drop_first() =~= Seq::<Seq<bool>>::empty());
        assert(concat_bits(Seq::<Seq<bool>>::empty()) =~= Seq::<bool>::empty());
        assert(concat_bits(parts) =~= parts[0]);
    } else {
        lemma_concat_front(parts.drop_last());
        assert(parts.drop_last().drop_first() =~= parts.drop_first().drop_last());
        assert(parts.drop_first().last() == parts.last());
        assert(concat_bits(parts) =~= parts[0] + concat_bits(parts.drop_first()));
    }
}

proof fn lemma_concat_nonempty(parts: Seq<Seq<bool>>)
    requires
        parts.len() >= 1,
        forall|k: int| 0 <= k < parts.len() ==> (#[trigger] parts[k]).len() >= 1,
    ensures
        concat_bits(parts).len() >= 1,
{
    lemma_concat_front(parts);
}

/// The codes of a sequence of indices, one after the other.
pub open spec fn code_string(codes: Seq<Seq<bool>>, xs: Seq<int>) -> Seq<bool> {
    concat_bits(Seq::new(xs.len(), |j: int| codes[xs[j]]))
}

/// A string of codes from a prefix code of non-empty codes reads back in
/// one way only: equal strings come from equal sequences of indices.
pub proof fn law_prefix_code_decodes_uniquely(codes: Seq<Seq<bool>>, xs: Seq<int>, ys: Seq<int>)
    requires
        forall|k: int| 0 <= k < codes.len() ==> (#[trigger] codes[k]).len() >= 1,
        forall|i: int, j: int|
            0 <= i < codes.len() && 0 <= j < codes.len() && i != j ==> !is_prefix(
                #[trigger] codes[i],
                #[trigger] codes[j],
            ),
        forall|j: int| 0 <= j < xs.len() ==> 0 <= #[trigger] xs[j] < codes.len(),
        forall|j: int| 0 <= j < ys.len() ==> 0 <= #[trigger] ys[j] < codes.len(),
        code_string(codes, xs) == code_string(codes, ys),
    ensures
        xs == ys,
    decreases xs.len() + ys.len(),
{
    let px = Seq::new(xs.len(), |j: int| codes[xs[j]]);
    let py = Seq::new(ys.len(), |j: int| codes[ys[j]]);
    if xs.len() == 0 || ys.len() == 0 {
        if xs.len() > 0 {
            assert(codes[xs[0]].len() >= 1);
            lemma_concat_nonempty(px);
        } else if ys.len() > 0 {
            assert(codes[ys[0]].len() >= 1);
            lemma_concat_nonempty(py);
        }
        assert(xs =~= ys);
    } else {
        lemma_concat_front(px);
        lemma_concat_front(py);
        let s = code_string(codes, xs);
        let a = codes[xs[0]];
        let b = codes[ys[0]];
        assert(px[0] == a && py[0] == b);
        if xs[0] != ys[0] {
            if a.len() <= b.len() {
                assert forall|k: int| 0 <= k < a.len() implies a[k] == b[k] by {
                    assert(s[k] == a[k]);
                    assert(s[k] == b[k]);
                }
                assert(is_prefix(a, b));
            } else {
                assert forall|k: int| 0 <= k < b.len() implies b[k] == a[k] by {
                    assert(s[k] == a[k]);
                    assert(s[k] == b[k]);
                }
                assert(is_prefix(b, a));
            }
        }
        let rx = concat_bits(px.drop_first());
        let ry = concat_bits(py.drop_first());
        assert(rx =~= s.subrange(a.len() as int, s.len() as int));
        assert(ry =~= s.subrange(a.len() as int, s.len() as int));
        assert(px.drop_first() =~= Seq::new(xs.drop_first().len(), |j: int| codes[xs.drop_first()[j]]));
        assert(py.drop_first() =~= Seq::new(ys.drop_first().len(), |j: int| codes[ys.drop_first()[j]]));
        law_prefix_code_decodes_uniquely(codes, xs.drop_first(), ys.drop_first());
        assert(xs[0] == ys[0]);
        assert(xs.len() == ys.len());
        assert forall|k: int| 0 <= k < xs.len() implies xs[k] == ys[k] by {
            if k > 0 {
                assert(xs.drop_first()[k - 1] == ys.drop_first()[k - 1]);
            }
        }
        assert(xs =~= ys);
    }
}

/// The table index of every field of a file, in order.
pub open spec fn field_indices(file: Seq<u8>, b: usize) -> Seq<int> {
    let vals = field_keys(file, b as int);
    let table = frequency_table_of(vals);
    Seq::new(vals.len(), |j: int| first_match(table, vals[j], 0))
}

/// The codes that an encoded file holds after its table read back as the
/// table indices of the file's fields and of nothing else.
pub proof fn law_encoded_body_decodes(file: Seq<u8>, b: usize, ys: Seq<int>)
    requires
        file.len() >= 1,
        b > 0,
        8 * file.len() <= usize::MAX,
        div_ceil(8 * file.len() as int, b as int) * b <= usize::MAX,
        forall|j: int|
            0 <= j < ys.len() ==> 0 <= #[trigger] ys[j] < file_codes(file, b as int).len(),
        code_string(file_codes(file, b as int), ys) == concat_bits(body_parts(file, b)),
    ensures
        ys == field_indices(file, b),
{
    lemma_file_tables(file, b);
    let codes = file_codes(file, b as int);
    let xs = field_indices(file, b);
    let vals = field_keys(file, b as int);
    let t = frequency_table_of(vals);
    law_codes_are_prefix_free(file_frequencies(file, b as int));
    assert forall|j: int| 0 <= j < xs.len() implies 0 <= #[trigger] xs[j] < codes.len() by {
        lemma_first_match_nonneg(t, vals[j]);
    }
    assert(Seq::new(xs.len(), |j: int| codes[xs[j]]) =~= body_parts(file, b));
    law_prefix_code_decodes_uniquely(codes, ys, xs);
}

} // verus!
