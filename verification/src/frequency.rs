//! Cutting a byte string into fields and counting how often each field
//! occurs.
use vstd::prelude::*;

use crate::bin_field::{
    key_of, keys_match, overhang, read_bin_field, read_bytes, source_bits, BinField,
};

verus! {

/// A field together with the number of times it occurs.
pub struct FrequencyOfField {
    pub field: BinField,
    pub frequency: usize,
}

impl FrequencyOfField {
    /// A field seen once.
    pub fn new(field: BinField) -> (entry: Self)
        ensures
            entry.field == field,
            entry.frequency == 1,
    {
        Self { frequency: 1, field: field }
    }
}

/// `a / b` rounded up.
pub open spec fn div_ceil(a: int, b: int) -> int {
    a / b + if a % b == 0 {
        0int
    } else {
        1int
    }
}

/// Cuts `file` into consecutive fields of `bin_length` bits, the last one
/// filled up with zero bits past the end of the file.
pub fn file_vec_into_bin_vec(file: &Vec<u8>, bin_length: usize) -> (fields: Vec<BinField>)
    requires
        bin_length > 0,
        8 * file@.len() <= usize::MAX,
        div_ceil(8 * file@.len() as int, bin_length as int) * bin_length <= usize::MAX,
    ensures
        fields@.len() == div_ceil(8 * file@.len() as int, bin_length as int),
        forall|i: int|
            0 <= i < fields@.len() ==> {
                &&& (#[trigger] fields@[i]).wf()
                &&& fields@[i].length == bin_length
                &&& fields@[i].bits() == source_bits(file@, i * bin_length, bin_length as int)
                &&& fields@[i].padding_length == overhang(
                    file@.len() as int,
                    i * bin_length,
                    bin_length as int,
                )
            },
        keys_of(fields@) == field_keys(file@, bin_length as int),
{
    let total = file.len() * 8;
    let count = total / bin_length + if total % bin_length == 0 {
        0
    } else {
        1
    };
    let mut bin_vec: Vec<BinField> = Vec::with_capacity(count);
    let mut i: usize = 0;
    while i < count
        invariant
            0 <= i <= count,
            count == div_ceil(8 * file@.len() as int, bin_length as int),
            bin_length > 0,
            8 * file@.len() <= usize::MAX,
            count * bin_length <= usize::MAX,
            bin_vec@.len() == i,
            forall|k: int|
                0 <= k < i ==> {
                    &&& (#[trigger] bin_vec@[k]).wf()
                    &&& bin_vec@[k].length == bin_length
                    &&& bin_vec@[k].bits() == source_bits(file@, k * bin_length, bin_length as int)
                    &&& bin_vec@[k].padding_length == overhang(
                        file@.len() as int,
                        k * bin_length,
                        bin_length as int,
                    )
                    &&& bin_vec@[k].data@ == read_bytes(file@, k * bin_length, bin_length as int)
                },
        decreases count - i,
    {
        assert(i * bin_length + bin_length <= count * bin_length) by (nonlinear_arith)
            requires
                i < count,
        ;
        let field = read_bin_field(file, i * bin_length, bin_length);
        bin_vec.push(field);
        i = i + 1;
    }
    proof {
        assert(keys_of(bin_vec@) =~= field_keys(file@, bin_length as int));
    }
    bin_vec
}

/// The keys of the fields of `b` bits that a byte string is cut into.
pub open spec fn field_keys(file: Seq<u8>, b: int) -> Seq<(Seq<u8>, usize, usize)> {
    Seq::new(
        div_ceil(8 * file.len() as int, b) as nat,
        |i: int|
            (
                read_bytes(file, i * b, b),
                b as usize,
                overhang(file.len() as int, i * b, b) as usize,
            ),
    )
}

/// The key of each field.
pub open spec fn keys_of(fields: Seq<BinField>) -> Seq<(Seq<u8>, usize, usize)> {
    Seq::new(fields.len(), |i: int| key_of(fields[i]))
}

/// A frequency table seen as keys with their counts.
pub open spec fn table_view(table: Seq<FrequencyOfField>) -> Seq<((Seq<u8>, usize, usize), nat)> {
    Seq::new(table.len(), |k: int| (key_of(table[k].field), table[k].frequency as nat))
}

/// Index of the first entry, at `i` or after, whose key `v` matches
/// (`keys_match(v, key)`), or the table's length if there is none.
pub open spec fn first_match(
    table: Seq<((Seq<u8>, usize, usize), nat)>,
    v: (Seq<u8>, usize, usize),
    i: int,
) -> int
    decreases table.len() - i,
{
    if i >= table.len() || i < 0 {
        table.len() as int
    } else if keys_match(v, table[i].0) {
        i
    } else {
        first_match(table, v, i + 1)
    }
}

/// The frequency table of a sequence of keys: each key adds one to the first
/// entry it matches, or, matching none, is appended with count one.
pub open spec fn frequency_table_of(vals: Seq<(Seq<u8>, usize, usize)>) -> Seq<
    ((Seq<u8>, usize, usize), nat),
>
    decreases vals.len(),
{
    if vals.len() == 0 {
        Seq::empty()
    } else {
        let t = frequency_table_of(vals.drop_last());
        let v = vals.last();
        let k = first_match(t, v, 0);
        if k < t.len() {
            t.update(k, (t[k].0, t[k].1 + 1))
        } else {
            t.push((v, 1))
        }
    }
}

/// Sum of the counts of a table.
pub open spec fn total_count(t: Seq<((Seq<u8>, usize, usize), nat)>) -> nat
    decreases t.len(),
{
    if t.len() == 0 {
        0
    } else {
        total_count(t.drop_last()) + t.last().1
    }
}

proof fn lemma_first_match_skip(
    t: Seq<((Seq<u8>, usize, usize), nat)>,
    v: (Seq<u8>, usize, usize),
    i: int,
    c: int,
)
    requires
        0 <= i <= c <= t.len(),
        forall|x: int| i <= x < c ==> !keys_match(v, #[trigger] t[x].0),
    ensures
        first_match(t, v, i) == first_match(t, v, c),
    decreases c - i,
{
    if i < c {
        lemma_first_match_skip(t, v, i + 1, c);
    }
}

pub proof fn lemma_first_match_bounds(
    t: Seq<((Seq<u8>, usize, usize), nat)>,
    v: (Seq<u8>, usize, usize),
    i: int,
)
    requires
        0 <= i <= t.len(),
    ensures
        i <= first_match(t, v, i) <= t.len(),
        first_match(t, v, i) < t.len() ==> keys_match(v, t[first_match(t, v, i)].0),
        forall|x: int| i <= x < first_match(t, v, i) ==> !keys_match(v, #[trigger] t[x].0),
    decreases t.len() - i,
{
    if i < t.len() {
        lemma_first_match_bounds(t, v, i + 1);
    }
}

/// Index of the first entry of `table` that `field` equals, or the table's
/// length if there is none.
fn position_of_field(table: &Vec<FrequencyOfField>, field: &BinField) -> (pos: usize)
    ensures
        pos == first_match(table_view(table@), key_of(*field), 0),
{
    let ghost t = table_view(table@);
    let mut c: usize = 0;
    while c < table.len()
        invariant
            0 <= c <= table@.len(),
            t == table_view(table@),
            forall|x: int| 0 <= x < c ==> !keys_match(key_of(*field), #[trigger] t[x].0),
        decreases table@.len() - c,
    {
        if *field == table[c].field {
            proof {
                lemma_first_match_skip(t, key_of(*field), 0, c as int);
            }
            return c;
        }
        c = c + 1;
    }
    proof {
        lemma_first_match_skip(t, key_of(*field), 0, c as int);
    }
    c
}

/// Index of the first entry of `frequency_table` whose field `field` equals.
pub fn get_index_of_bin_field_in_frequency_table(
    frequency_table: &Vec<FrequencyOfField>,
    field: &BinField,
) -> (index: usize)
    requires
        exists|i: int|
            0 <= i < frequency_table@.len() && keys_match(
                key_of(*field),
                #[trigger] key_of(frequency_table@[i].field),
            ),
    ensures
        index == first_match(table_view(frequency_table@), key_of(*field), 0),
        index < frequency_table@.len(),
        key_of(frequency_table@[index as int].field) == key_of(*field),
        forall|i: int|
            0 <= i < index ==> key_of((#[trigger] frequency_table@[i]).field) != key_of(*field),
{
    let index = position_of_field(frequency_table, field);
    proof {
        let t = table_view(frequency_table@);
        lemma_first_match_bounds(t, key_of(*field), 0);
        let i = choose|i: int|
            0 <= i < frequency_table@.len() && keys_match(
                key_of(*field),
                #[trigger] key_of(frequency_table@[i].field),
            );
        assert(t[i].0 == key_of(frequency_table@[i].field));
        assert forall|x: int| 0 <= x < index implies key_of((#[trigger] frequency_table@[x]).field)
            != key_of(*field) by {
            assert(!keys_match(key_of(*field), t[x].0));
        }
    }
    index
}

pub proof fn lemma_entry_le_total(t: Seq<((Seq<u8>, usize, usize), nat)>, k: int)
    requires
        0 <= k < t.len(),
    ensures
        t[k].1 <= total_count(t),
    decreases t.len(),
{
    if k < t.len() - 1 {
        lemma_entry_le_total(t.drop_last(), k);
    }
}

proof fn lemma_total_update(t: Seq<((Seq<u8>, usize, usize), nat)>, k: int, e: ((Seq<u8>, usize, usize), nat))
    requires
        0 <= k < t.len(),
    ensures
        total_count(t.update(k, e)) == total_count(t) - t[k].1 + e.1,
    decreases t.len(),
{
    if k < t.len() - 1 {
        lemma_total_update(t.drop_last(), k, e);
        assert(t.update(k, e).drop_last() =~= t.drop_last().update(k, e));
    } else {
        assert(t.update(k, e).drop_last() =~= t.drop_last());
    }
}

/// One step of `frequency_table_of`: the entries already there keep their
/// keys, and a new entry, if any, holds the new key.
pub proof fn lemma_table_step(vals: Seq<(Seq<u8>, usize, usize)>)
    requires
        vals.len() > 0,
    ensures
        ({
            let t = frequency_table_of(vals.drop_last());
            let tt = frequency_table_of(vals);
            &&& t.len() <= tt.len() <= t.len() + 1
            &&& forall|x: int| 0 <= x < t.len() ==> #[trigger] tt[x].0 == t[x].0
            &&& tt.len() == t.len() + 1 ==> tt[t.len() as int] == (vals.last(), 1nat)
            &&& tt.len() == t.len() + 1 ==> first_match(tt, vals.last(), 0) == t.len()
            &&& first_match(tt, vals.last(), 0) < tt.len()
            &&& forall|x: int|
                0 <= x < t.len() ==> #[trigger] tt[x].1 == t[x].1 + if x == first_match(
                    tt,
                    vals.last(),
                    0,
                ) {
                    1nat
                } else {
                    0nat
                }
        }),
{
    let t = frequency_table_of(vals.drop_last());
    let tt = frequency_table_of(vals);
    let v = vals.last();
    let k = first_match(t, v, 0);
    lemma_first_match_bounds(t, v, 0);
    if k < t.len() {
        lemma_first_match_prefix(t, tt, v);
    } else {
        assert(forall|x: int| 0 <= x < t.len() ==> !keys_match(v, #[trigger] tt[x].0));
        lemma_first_match_skip(tt, v, 0, t.len() as int);
        assert(keys_match(v, tt[t.len() as int].0));
    }
}

/// The first match of a key found in a table stays where it is when the
/// table grows at the end, its keys unchanged.
proof fn lemma_first_match_prefix(
    t: Seq<((Seq<u8>, usize, usize), nat)>,
    tt: Seq<((Seq<u8>, usize, usize), nat)>,
    v: (Seq<u8>, usize, usize),
)
    requires
        t.len() <= tt.len(),
        forall|x: int| 0 <= x < t.len() ==> #[trigger] tt[x].0 == t[x].0,
        first_match(t, v, 0) < t.len(),
    ensures
        first_match(tt, v, 0) == first_match(t, v, 0),
{
    let k = first_match(t, v, 0);
    lemma_first_match_bounds(t, v, 0);
    assert forall|x: int| 0 <= x < k implies !keys_match(v, #[trigger] tt[x].0) by {
        assert(!keys_match(v, t[x].0));
    }
    lemma_first_match_skip(tt, v, 0, k);
    assert(keys_match(v, tt[k].0));
}

/// Every key of a sequence is found in its frequency table.
pub proof fn law_every_value_in_table(vals: Seq<(Seq<u8>, usize, usize)>)
    ensures
        forall|j: int|
            0 <= j < vals.len() ==> #[trigger] first_match(frequency_table_of(vals), vals[j], 0)
                < frequency_table_of(vals).len(),
    decreases vals.len(),
{
    if vals.len() > 0 {
        let prev = vals.drop_last();
        law_every_value_in_table(prev);
        lemma_table_step(vals);
        let t = frequency_table_of(prev);
        let tt = frequency_table_of(vals);
        assert forall|j: int| 0 <= j < vals.len() implies #[trigger] first_match(tt, vals[j], 0)
            < tt.len() by {
            if j < vals.len() - 1 {
                assert(vals[j] == prev[j]);
                assert(first_match(t, prev[j], 0) < t.len());
                lemma_first_match_prefix(t, tt, vals[j]);
            }
        }
    }
}

/// The counts of a frequency table add up to the number of keys.
pub proof fn law_counts_add_up(vals: Seq<(Seq<u8>, usize, usize)>)
    ensures
        total_count(frequency_table_of(vals)) == vals.len(),
    decreases vals.len(),
{
    if vals.len() > 0 {
        let prev = vals.drop_last();
        law_counts_add_up(prev);
        let t = frequency_table_of(prev);
        let v = vals.last();
        let k = first_match(t, v, 0);
        if k < t.len() {
            lemma_first_match_bounds(t, v, 0);
            lemma_total_update(t, k, (t[k].0, t[k].1 + 1));
        } else {
            assert(t.push((v, 1nat)).drop_last() =~= t);
        }
    }
}

/// Every entry of a frequency table counts at least one key.
pub proof fn law_counts_positive(vals: Seq<(Seq<u8>, usize, usize)>)
    ensures
        forall|k: int|
            0 <= k < frequency_table_of(vals).len() ==> #[trigger] frequency_table_of(vals)[k].1
                >= 1,
    decreases vals.len(),
{
    if vals.len() > 0 {
        law_counts_positive(vals.drop_last());
        lemma_table_step(vals);
    }
}

/// Every key of a frequency table is one of the keys counted.
pub proof fn law_table_keys_are_values(vals: Seq<(Seq<u8>, usize, usize)>)
    ensures
        forall|k: int|
            0 <= k < frequency_table_of(vals).len() ==> exists|j: int|
                0 <= j < vals.len() && vals[j] == #[trigger] frequency_table_of(vals)[k].0,
    decreases vals.len(),
{
    if vals.len() > 0 {
        let prev = vals.drop_last();
        law_table_keys_are_values(prev);
        lemma_table_step(vals);
        let t = frequency_table_of(prev);
        let tt = frequency_table_of(vals);
        assert forall|k: int| 0 <= k < tt.len() implies exists|j: int|
            0 <= j < vals.len() && vals[j] == #[trigger] tt[k].0 by {
            if k < t.len() {
                let j = choose|j: int| 0 <= j < prev.len() && prev[j] == #[trigger] t[k].0;
                assert(vals[j] == prev[j]);
            } else {
                assert(vals[vals.len() - 1] == tt[k].0);
            }
        }
    }
}

/// Number of the first `m` keys whose first match in `t` is entry `k`.
pub open spec fn match_count(
    t: Seq<((Seq<u8>, usize, usize), nat)>,
    vals: Seq<(Seq<u8>, usize, usize)>,
    k: int,
    m: int,
) -> nat
    decreases m,
{
    if m <= 0 {
        0
    } else {
        match_count(t, vals, k, m - 1) + if first_match(t, vals[m - 1], 0) == k {
            1nat
        } else {
            0nat
        }
    }
}

proof fn lemma_match_count_same(
    t: Seq<((Seq<u8>, usize, usize), nat)>,
    tt: Seq<((Seq<u8>, usize, usize), nat)>,
    vals: Seq<(Seq<u8>, usize, usize)>,
    vals2: Seq<(Seq<u8>, usize, usize)>,
    k: int,
    m: int,
)
    requires
        0 <= m <= vals.len(),
        m <= vals2.len(),
        forall|j: int| 0 <= j < m ==> #[trigger] vals2[j] == vals[j],
        forall|j: int|
            0 <= j < m ==> #[trigger] first_match(t, vals[j], 0) == first_match(tt, vals[j], 0),
    ensures
        match_count(t, vals, k, m) == match_count(tt, vals2, k, m),
    decreases m,
{
    if m > 0 {
        lemma_match_count_same(t, tt, vals, vals2, k, m - 1);
        assert(vals2[m - 1] == vals[m - 1]);
        assert(first_match(t, vals[m - 1], 0) == first_match(tt, vals[m - 1], 0));
    }
}

proof fn lemma_match_count_none(
    t: Seq<((Seq<u8>, usize, usize), nat)>,
    vals: Seq<(Seq<u8>, usize, usize)>,
    k: int,
    m: int,
)
    requires
        0 <= m <= vals.len(),
        forall|j: int| 0 <= j < m ==> #[trigger] first_match(t, vals[j], 0) != k,
    ensures
        match_count(t, vals, k, m) == 0,
    decreases m,
{
    if m > 0 {
        lemma_match_count_none(t, vals, k, m - 1);
    }
}

/// Each count of a frequency table is the number of keys whose first match
/// is that entry.
pub proof fn law_counts_are_matches(vals: Seq<(Seq<u8>, usize, usize)>)
    ensures
        forall|k: int|
            0 <= k < frequency_table_of(vals).len() ==> #[trigger] frequency_table_of(vals)[k].1
                == match_count(frequency_table_of(vals), vals, k, vals.len() as int),
    decreases vals.len(),
{
    if vals.len() > 0 {
        let prev = vals.drop_last();
        let m = vals.len() - 1;
        law_counts_are_matches(prev);
        law_every_value_in_table(prev);
        lemma_table_step(vals);
        let t = frequency_table_of(prev);
        let tt = frequency_table_of(vals);
        assert forall|j: int| 0 <= j < m implies #[trigger] first_match(tt, vals[j], 0)
            == first_match(t, vals[j], 0) by {
            assert(vals[j] == prev[j]);
            assert(first_match(t, prev[j], 0) < t.len());
            lemma_first_match_prefix(t, tt, vals[j]);
        }
        assert forall|j: int| 0 <= j < m implies #[trigger] prev[j] == vals[j] by {}
        assert forall|k: int| 0 <= k < tt.len() implies #[trigger] tt[k].1 == match_count(
            tt,
            vals,
            k,
            vals.len() as int,
        ) by {
            lemma_match_count_same(tt, t, vals, prev, k, m);
            assert(match_count(tt, vals, k, vals.len() as int) == match_count(tt, vals, k, m) + if first_match(tt, vals[m], 0) == k { 1nat } else { 0nat });
            assert(vals[m] == vals.last());
            if k < t.len() {
                assert(t[k].1 == match_count(t, prev, k, prev.len() as int));
            } else {
                assert forall|j: int| 0 <= j < m implies #[trigger] first_match(
                    t,
                    prev[j],
                    0,
                ) != k by {
                    assert(first_match(t, prev[j], 0) < t.len());
                }
                lemma_match_count_none(t, prev, k, m);
            }
        }
    }
}

/// Counts how often each field occurs in `data`: one entry per distinct
/// field, in order of first occurrence (see `frequency_table_of`).
pub fn create_frequency_table(data: &Vec<BinField>) -> (frequency_table: Vec<FrequencyOfField>)
    ensures
        table_view(frequency_table@) == frequency_table_of(keys_of(data@)),
        forall|k: int|
            0 <= k < frequency_table@.len() ==> (#[trigger] frequency_table@[k]).frequency
                == key_count(keys_of(data@), key_of(frequency_table@[k].field), data@.len() as int),
        forall|a: int, b: int|
            0 <= a < b < frequency_table@.len() ==> key_of((#[trigger] frequency_table@[a]).field)
                != key_of((#[trigger] frequency_table@[b]).field),
        forall|j: int|
            0 <= j < data@.len() ==> exists|k: int|
                0 <= k < frequency_table@.len() && key_of((#[trigger] frequency_table@[k]).field)
                    == key_of(#[trigger] data@[j]),
{
    let ghost vals = keys_of(data@);
    let mut table: Vec<FrequencyOfField> = Vec::new();
    let mut j: usize = 0;
    proof {
        assert(vals.take(0) =~= Seq::<(Seq<u8>, usize, usize)>::empty());
        assert(table_view(table@) =~= frequency_table_of(vals.take(0)));
    }
    while j < data.len()
        invariant
            0 <= j <= data@.len(),
            vals == keys_of(data@),
            table_view(table@) == frequency_table_of(vals.take(j as int)),
        decreases data@.len() - j,
    {
        let value = &data[j];
        let pos = position_of_field(&table, value);
        let ghost t = table_view(table@);
        proof {
            assert(vals.take(j + 1).drop_last() =~= vals.take(j as int));
            assert(vals.take(j + 1).last() == key_of(*value));
            law_counts_add_up(vals.take(j as int));
        }
        if pos < table.len() {
            proof {
                lemma_entry_le_total(t, pos as int);
            }
            table[pos].frequency = table[pos].frequency + 1;
            proof {
                assert(table_view(table@) =~= t.update(pos as int, (t[pos as int].0, t[pos as int].1 + 1)));
            }
        } else {
            table.push(FrequencyOfField::new(value.clone()));
            proof {
                assert(table_view(table@) =~= t.push((key_of(*value), 1nat)));
            }
        }
        j = j + 1;
    }
    proof {
        assert(vals.take(data@.len() as int) =~= vals);
        let t = table_view(table@);
        assert(t == frequency_table_of(vals));
        law_counts_are_key_counts(vals);
        law_table_entries_distinct(vals);
        law_every_value_in_table(vals);
        assert forall|k: int| 0 <= k < table@.len() implies (#[trigger] table@[k]).frequency
            == key_count(vals, key_of(table@[k].field), data@.len() as int) by {
            assert(t[k].1 == key_count(vals, t[k].0, vals.len() as int));
        }
        assert forall|a: int, b: int| 0 <= a < b < table@.len() implies key_of(
            (#[trigger] table@[a]).field,
        ) != key_of((#[trigger] table@[b]).field) by {
            assert(!keys_match(t[b].0, t[a].0));
        }
        assert forall|j: int| 0 <= j < data@.len() implies exists|k: int|
            0 <= k < table@.len() && key_of((#[trigger] table@[k]).field) == key_of(
                #[trigger] data@[j],
            ) by {
            assert(vals[j] == key_of(data@[j]));
            let fm = first_match(t, vals[j], 0);
            lemma_first_match_bounds(t, vals[j], 0);
            assert(fm < t.len());
            assert(key_of(table@[fm].field) == key_of(data@[j]));
        }
    }
    table
}

/// No entry of a frequency table equals an entry before it.
pub proof fn law_table_entries_distinct(vals: Seq<(Seq<u8>, usize, usize)>)
    ensures
        forall|a: int, b: int|
            0 <= a < b < frequency_table_of(vals).len() ==> !keys_match(
                #[trigger] frequency_table_of(vals)[b].0,
                #[trigger] frequency_table_of(vals)[a].0,
            ),
    decreases vals.len(),
{
    if vals.len() > 0 {
        let prev = vals.drop_last();
        law_table_entries_distinct(prev);
        lemma_table_step(vals);
        let t = frequency_table_of(prev);
        let tt = frequency_table_of(vals);
        let v = vals.last();
        lemma_first_match_bounds(t, v, 0);
        assert forall|a: int, b: int| 0 <= a < b < tt.len() implies !keys_match(
            #[trigger] tt[b].0,
            #[trigger] tt[a].0,
        ) by {
            if b < t.len() {
                assert(!keys_match(t[b].0, t[a].0));
            } else {
                assert(first_match(t, v, 0) == t.len());
                assert(!keys_match(v, t[a].0));
            }
        }
    }
}

/// How many of the first `m` keys equal `key`.
pub open spec fn key_count(vals: Seq<(Seq<u8>, usize, usize)>, key: (Seq<u8>, usize, usize), m: int) -> nat
    decreases m,
{
    if m <= 0 {
        0
    } else {
        key_count(vals, key, m - 1) + if vals[m - 1] == key {
            1nat
        } else {
            0nat
        }
    }
}

proof fn lemma_match_is_key_count(vals: Seq<(Seq<u8>, usize, usize)>, k: int, m: int)
    requires
        0 <= k < frequency_table_of(vals).len(),
        0 <= m <= vals.len(),
    ensures
        match_count(frequency_table_of(vals), vals, k, m) == key_count(
            vals,
            frequency_table_of(vals)[k].0,
            m,
        ),
    decreases m,
{
    if m > 0 {
        let t = frequency_table_of(vals);
        lemma_match_is_key_count(vals, k, m - 1);
        law_every_value_in_table(vals);
        law_table_entries_distinct(vals);
        let v = vals[m - 1];
        lemma_first_match_bounds(t, v, 0);
        let fm = first_match(t, v, 0);
        assert(fm < t.len());
        assert(t[fm].0 == v);
        if fm < k {
            assert(!keys_match(t[k].0, t[fm].0));
        } else if fm > k {
            assert(!keys_match(t[fm].0, t[k].0));
        }
    }
}

/// Every entry of the table counts the keys equal to its own.
pub proof fn law_counts_are_key_counts(vals: Seq<(Seq<u8>, usize, usize)>)
    ensures
        forall|k: int|
            0 <= k < frequency_table_of(vals).len() ==> #[trigger] frequency_table_of(vals)[k].1
                == key_count(vals, frequency_table_of(vals)[k].0, vals.len() as int),
{
    law_counts_are_matches(vals);
    assert forall|k: int| 0 <= k < frequency_table_of(vals).len() implies #[trigger] frequency_table_of(
        vals,
    )[k].1 == key_count(vals, frequency_table_of(vals)[k].0, vals.len() as int) by {
        lemma_match_is_key_count(vals, k, vals.len() as int);
    }
}

} // verus!
