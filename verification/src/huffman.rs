//! Huffman codes for a frequency table.
//!
//! Every entry of the table starts as a node of its own, weighted by its
//! frequency, with a group holding its own index and an empty code.  Each
//! step picks the two lightest nodes, puts a `0` in front of the code of
//! every index in the first node's group and a `1` in front of those of the
//! second, gives the second node the sum of both weights and the first
//! node's group, and retires the first node by giving it the total weight.
use vstd::prelude::*;

use crate::bin_field::BinField;
use crate::frequency::FrequencyOfField;

verus! {

/// The frequencies of a table, in order.
pub open spec fn frequencies(table: Seq<FrequencyOfField>) -> Seq<int> {
    Seq::new(table.len(), |i: int| table[i].frequency as int)
}

/// Sum of a sequence of integers.
pub open spec fn seq_sum(s: Seq<int>) -> int
    decreases s.len(),
{
    if s.len() == 0 {
        0
    } else {
        seq_sum(s.drop_last()) + s.last()
    }
}

/// The two picks among the first `n` weights, as
/// `(first weight, first index, second weight, second index)`: scanning
/// from the front with both picks starting at `(sum, 0)`, a weight not above
/// the second pick's becomes the first pick if it is not above the first
/// pick's either (the old first pick moving to second), else the second pick.
pub open spec fn scan_minima(w: Seq<int>, sum: int, n: int) -> (int, int, int, int)
    decreases n,
{
    if n <= 0 {
        (sum, 0, sum, 0)
    } else {
        let (a, ai, b, bi) = scan_minima(w, sum, n - 1);
        let x = w[n - 1];
        if b >= x {
            if a >= x {
                (x, n - 1, a, ai)
            } else {
                (a, ai, x, n - 1)
            }
        } else {
            (a, ai, b, bi)
        }
    }
}

/// Number of times `x` occurs in `s`.
pub open spec fn occurrences(s: Seq<usize>, x: int) -> nat
    decreases s.len(),
{
    if s.len() == 0 {
        0
    } else {
        occurrences(s.drop_last(), x) + if s.last() == x {
            1nat
        } else {
            0nat
        }
    }
}

/// `c` copies of the bit `b`.
pub open spec fn repeat_bit(b: bool, c: nat) -> Seq<bool> {
    Seq::new(c, |k: int| b)
}

/// The state before the first step: weights, groups and codes.  A table of
/// one entry gets the code `1`.
pub open spec fn initial_state(freqs: Seq<int>) -> (Seq<int>, Seq<Seq<usize>>, Seq<Seq<bool>>) {
    (
        freqs,
        Seq::new(freqs.len(), |i: int| seq![i as usize]),
        Seq::new(
            freqs.len(),
            |i: int|
                if freqs.len() == 1 {
                    seq![true]
                } else {
                    Seq::empty()
                },
        ),
    )
}

/// One step (see the module's documentation).
pub open spec fn merge_step(s: (Seq<int>, Seq<Seq<usize>>, Seq<Seq<bool>>), sum: int) -> (
    Seq<int>,
    Seq<Seq<usize>>,
    Seq<Seq<bool>>,
) {
    let (w, g, c) = s;
    let (a, ai, b, bi) = scan_minima(w, sum, w.len() as int);
    (
        w.update(ai, sum).update(bi, a + b),
        g.update(bi, g[bi] + g[ai]),
        Seq::new(
            w.len(),
            |i: int|
                repeat_bit(true, occurrences(g[bi], i)) + repeat_bit(false, occurrences(g[ai], i))
                    + c[i],
        ),
    )
}

/// The state after `k` steps.
pub open spec fn huffman_state(freqs: Seq<int>, k: nat) -> (
    Seq<int>,
    Seq<Seq<usize>>,
    Seq<Seq<bool>>,
)
    decreases k,
{
    if k == 0 {
        initial_state(freqs)
    } else {
        merge_step(huffman_state(freqs, (k - 1) as nat), seq_sum(freqs))
    }
}

/// The final state: one step fewer than there are entries.
pub open spec fn huffman_result(freqs: Seq<int>) -> (Seq<int>, Seq<Seq<usize>>, Seq<Seq<bool>>) {
    huffman_state(freqs, (freqs.len() - 1) as nat)
}

/// A step whose new weight and new code lengths fit a `usize`.
pub open spec fn step_fits(s: (Seq<int>, Seq<Seq<usize>>, Seq<Seq<bool>>), sum: int) -> bool {
    let (w, g, c) = s;
    let (a, ai, b, bi) = scan_minima(w, sum, w.len() as int);
    &&& a + b <= usize::MAX
    &&& forall|i: int|
        0 <= i < w.len() ==> #[trigger] c[i].len() + occurrences(g[ai], i) + occurrences(g[bi], i)
            <= usize::MAX
}

/// The frequencies on which the coder runs to its end: at least one entry,
/// a total that fits a `usize`, and steps that all fit.
pub open spec fn huffman_defined(freqs: Seq<int>) -> bool {
    &&& freqs.len() >= 1
    &&& seq_sum(freqs) <= usize::MAX
    &&& forall|k: nat|
        k < freqs.len() - 1 ==> step_fits(#[trigger] huffman_state(freqs, k), seq_sum(freqs))
}

/// A coder table seen as weights, groups and code bits.
pub open spec fn entries_state(t: Seq<(usize, Vec<usize>, BinField)>) -> (
    Seq<int>,
    Seq<Seq<usize>>,
    Seq<Seq<bool>>,
) {
    (
        Seq::new(t.len(), |i: int| t[i].0 as int),
        Seq::new(t.len(), |i: int| t[i].1@),
        Seq::new(t.len(), |i: int| t[i].2.bits()),
    )
}

proof fn lemma_seq_sum_prefix(s: Seq<int>, i: int)
    requires
        0 <= i <= s.len(),
        forall|j: int| 0 <= j < s.len() ==> s[j] >= 0,
    ensures
        0 <= seq_sum(s.take(i)) <= seq_sum(s),
    decreases s.len(),
{
    if s.len() > 0 {
        if i == s.len() {
            assert(s.take(i) =~= s);
            lemma_seq_sum_prefix(s.drop_last(), i - 1);
            assert(s.drop_last().take(i - 1) =~= s.take(i - 1));
        } else {
            lemma_seq_sum_prefix(s.drop_last(), i);
            assert(s.drop_last().take(i) =~= s.take(i));
        }
    }
}

proof fn lemma_occurrences_take(s: Seq<usize>, m: int, x: int)
    requires
        0 <= m < s.len(),
    ensures
        occurrences(s.take(m + 1), x) == occurrences(s.take(m), x) + if s[m] == x {
            1nat
        } else {
            0nat
        },
        occurrences(s.take(m + 1), x) <= occurrences(s, x),
    decreases s.len(),
{
    assert(s.take(m + 1).drop_last() =~= s.take(m));
    if m + 1 < s.len() {
        lemma_occurrences_take(s.drop_last(), m, x);
        assert(s.drop_last().take(m + 1) =~= s.take(m + 1));
        assert(s.drop_last().take(m) =~= s.take(m));
    } else {
        assert(s.take(m + 1) =~= s);
    }
}

/// Appends the group of entry `y` to the group of entry `x`.
pub fn merge_indexes_between_vec(vec: &mut Vec<(usize, Vec<usize>, BinField)>, x: usize, y: usize)
    requires
        x < old(vec)@.len(),
        y < old(vec)@.len(),
    ensures
        final(vec)@.len() == old(vec)@.len(),
        final(vec)@[x as int].0 == old(vec)@[x as int].0,
        final(vec)@[x as int].1@ == old(vec)@[x as int].1@ + old(vec)@[y as int].1@,
        final(vec)@[x as int].2 == old(vec)@[x as int].2,
        forall|i: int| 0 <= i < old(vec)@.len() && i != x ==> final(vec)@[i] == old(vec)@[i],
{
    let mut b = vec[y].1.clone();
    assert(b@ =~= old(vec)@[y as int].1@);
    vec[x].1.append(&mut b);
}

/// Builds the Huffman codes of a frequency table (see the module's
/// documentation): entry `i` of the result holds the final weight of node
/// `i`, its group and the code of index `i`.
pub fn create_huffman_code(frequency_table: &Vec<FrequencyOfField>) -> (huffman_table: Vec<
    (usize, Vec<usize>, BinField),
>)
    requires
        huffman_defined(frequencies(frequency_table@)),
    ensures
        huffman_table@.len() == frequency_table@.len(),
        entries_state(huffman_table@) == huffman_result(frequencies(frequency_table@)),
        forall|i: int|
            0 <= i < huffman_table@.len() ==> (#[trigger] huffman_table@[i]).2.wf()
                && huffman_table@[i].2.padding_length == 0,
{
    let ghost freqs = frequencies(frequency_table@);
    let n = frequency_table.len();
    let mut frequency_seq: Vec<(usize, Vec<usize>, BinField)> = Vec::new();
    let mut sum: usize = 0;
    let mut i: usize = 0;
    while i < n
        invariant
            0 <= i <= n,
            n == freqs.len(),
            freqs == frequencies(frequency_table@),
            seq_sum(freqs) <= usize::MAX,
            sum == seq_sum(freqs.take(i as int)),
            frequency_seq@.len() == i,
            forall|j: int|
                0 <= j < i ==> {
                    &&& (#[trigger] frequency_seq@[j]).0 == freqs[j]
                    &&& frequency_seq@[j].1@ == seq![j as usize]
                    &&& frequency_seq@[j].2.length == 0
                    &&& frequency_seq@[j].2.padding_length == 0
                    &&& frequency_seq@[j].2.data@.len() == 0
                },
        decreases n - i,
    {
        proof {
            lemma_seq_sum_prefix(freqs, i + 1);
            assert(freqs.take(i + 1).drop_last() =~= freqs.take(i as int));
        }
        let mut group: Vec<usize> = Vec::new();
        group.push(i);
        frequency_seq.push(
            (
                frequency_table[i].frequency,
                group,
                BinField { padding_length: 0, length: 0, data: Vec::new() },
            ),
        );
        sum = sum + frequency_table[i].frequency;
        i = i + 1;
    }
    proof {
        assert(freqs.take(n as int) =~= freqs);
    }
    if n - 1 == 0 {
        frequency_seq[0].2.push_bit(1);
    }
    proof {
        let st = entries_state(frequency_seq@);
        let init = initial_state(freqs);
        assert forall|j: int| 0 <= j < n implies st.2[j] == init.2[j] by {
            assert(frequency_seq@[j].2.bits() =~= init.2[j]);
        }
        assert(st.0 =~= init.0);
        assert(st.1 =~= init.1);
        assert(st.2 =~= init.2);
    }
    let mut step: usize = 0;
    while step < n - 1
        invariant
            0 <= step <= n - 1,
            n == freqs.len(),
            huffman_defined(freqs),
            sum == seq_sum(freqs),
            frequency_seq@.len() == n,
            entries_state(frequency_seq@) == huffman_state(freqs, step as nat),
            forall|j: int|
                0 <= j < n ==> (#[trigger] frequency_seq@[j]).2.wf()
                    && frequency_seq@[j].2.padding_length == 0,
            forall|j: int, k: int|
                0 <= j < n && 0 <= k < frequency_seq@[j].1@.len() ==> #[trigger] frequency_seq@[j].1@[k]
                    < n,
        decreases n - 1 - step,
    {
        let ghost s = entries_state(frequency_seq@);
        proof {
            assert(step_fits(huffman_state(freqs, step as nat), seq_sum(freqs)));
        }
        let mut min1: (usize, usize) = (sum, 0);
        let mut min2: (usize, usize) = (sum, 0);
        let mut m: usize = 0;
        while m < n
            invariant
                0 <= m <= n,
                frequency_seq@.len() == n,
                s == entries_state(frequency_seq@),
                min1.1 < n,
                min2.1 < n,
                (min1.0 as int, min1.1 as int, min2.0 as int, min2.1 as int) == scan_minima(
                    s.0,
                    sum as int,
                    m as int,
                ),
            decreases n - m,
        {
            let x = frequency_seq[m].0;
            if min2.0 >= x {
                if min1.0 >= x {
                    min2 = min1;
                    min1 = (x, m);
                } else {
                    min2 = (x, m);
                }
            }
            m = m + 1;
        }
        let (a, ai) = min1;
        let (b, bi) = min2;
        let ghost g1 = s.1[ai as int];
        let ghost g2 = s.1[bi as int];
        let ghost w1 = s.0.update(ai as int, sum as int).update(bi as int, a + b);
        frequency_seq[ai].0 = sum;
        frequency_seq[bi].0 = a + b;
        let len1 = frequency_seq[ai].1.len();
        let mut m: usize = 0;
        while m < len1
            invariant
                0 <= m <= len1,
                frequency_seq@.len() == n,
                n == s.0.len(),
                ai < n,
                bi < n,
                g1 == s.1[ai as int],
                g2 == s.1[bi as int],
                len1 == g1.len(),
                forall|j: int, k: int|
                    0 <= j < n && 0 <= k < s.1[j].len() ==> #[trigger] s.1[j][k] < n,
                forall|j: int|
                    0 <= j < n ==> #[trigger] s.2[j].len() + occurrences(g1, j) + occurrences(g2, j)
                        <= usize::MAX,
                forall|j: int|
                    0 <= j < n ==> {
                        &&& (#[trigger] frequency_seq@[j]).0 == w1[j]
                        &&& frequency_seq@[j].1@ == s.1[j]
                        &&& frequency_seq@[j].2.wf()
                        &&& frequency_seq@[j].2.padding_length == 0
                        &&& frequency_seq@[j].2.bits() == repeat_bit(
                            false,
                            occurrences(g1.take(m as int), j),
                        ) + s.2[j]
                    },
            decreases len1 - m,
        {
            let index = frequency_seq[ai].1[m];
            proof {
                assert(g1[m as int] == index);
                lemma_occurrences_take(g1, m as int, index as int);
                assert forall|j: int| 0 <= j < n && j != index implies occurrences(
                    g1.take(m + 1),
                    j,
                ) == occurrences(g1.take(m as int), j) by {
                    lemma_occurrences_take(g1, m as int, j);
                }
            }
            frequency_seq[index].2.push_bit(0);
            proof {
                assert(repeat_bit(false, occurrences(g1.take(m + 1), index as int)) =~= seq![false]
                    + repeat_bit(false, occurrences(g1.take(m as int), index as int)));
                assert(frequency_seq@[index as int].2.bits() =~= repeat_bit(
                    false,
                    occurrences(g1.take(m + 1), index as int),
                ) + s.2[index as int]);
            }
            m = m + 1;
        }
        proof {
            assert(g1.take(len1 as int) =~= g1);
        }
        let len2 = frequency_seq[bi].1.len();
        let mut m: usize = 0;
        while m < len2
            invariant
                0 <= m <= len2,
                frequency_seq@.len() == n,
                n == s.0.len(),
                ai < n,
                bi < n,
                g1 == s.1[ai as int],
                g2 == s.1[bi as int],
                len2 == g2.len(),
                forall|j: int, k: int|
                    0 <= j < n && 0 <= k < s.1[j].len() ==> #[trigger] s.1[j][k] < n,
                forall|j: int|
                    0 <= j < n ==> #[trigger] s.2[j].len() + occurrences(g1, j) + occurrences(g2, j)
                        <= usize::MAX,
                forall|j: int|
                    0 <= j < n ==> {
                        &&& (#[trigger] frequency_seq@[j]).0 == w1[j]
                        &&& frequency_seq@[j].1@ == s.1[j]
                        &&& frequency_seq@[j].2.wf()
                        &&& frequency_seq@[j].2.padding_length == 0
                        &&& frequency_seq@[j].2.bits() == repeat_bit(
                            true,
                            occurrences(g2.take(m as int), j),
                        ) + repeat_bit(false, occurrences(g1, j)) + s.2[j]
                    },
            decreases len2 - m,
        {
            let index = frequency_seq[bi].1[m];
            proof {
                assert(g2[m as int] == index);
                lemma_occurrences_take(g2, m as int, index as int);
                assert forall|j: int| 0 <= j < n && j != index implies occurrences(
                    g2.take(m + 1),
                    j,
                ) == occurrences(g2.take(m as int), j) by {
                    lemma_occurrences_take(g2, m as int, j);
                }
            }
            frequency_seq[index].2.push_bit(1);
            proof {
                assert(repeat_bit(true, occurrences(g2.take(m + 1), index as int)) =~= seq![true]
                    + repeat_bit(true, occurrences(g2.take(m as int), index as int)));
                assert(frequency_seq@[index as int].2.bits() =~= repeat_bit(
                    true,
                    occurrences(g2.take(m + 1), index as int),
                ) + repeat_bit(false, occurrences(g1, index as int)) + s.2[index as int]);
            }
            m = m + 1;
        }
        proof {
            assert(g2.take(len2 as int) =~= g2);
        }
        merge_indexes_between_vec(&mut frequency_seq, bi, ai);
        proof {
            let next = merge_step(s, sum as int);
            let st = entries_state(frequency_seq@);
            assert(st.0 =~= next.0);
            assert(st.1 =~= next.1);
            assert(st.2 =~= next.2);
            assert(huffman_state(freqs, (step + 1) as nat) == merge_step(
                huffman_state(freqs, step as nat),
                seq_sum(freqs),
            ));
        }
        step = step + 1;
    }
    frequency_seq
}

/// The two picks of a scan are indices among the weights scanned.
pub proof fn lemma_scan_in_range(w: Seq<int>, sum: int, n: int)
    requires
        n >= 1,
    ensures
        0 <= scan_minima(w, sum, n).1 < n,
        0 <= scan_minima(w, sum, n).3 < n,
    decreases n,
{
    if n > 1 {
        lemma_scan_in_range(w, sum, n - 1);
    } else {
        assert(scan_minima(w, sum, 0) == (sum, 0int, sum, 0int));
    }
}

/// Every state has one weight, one group and one code per entry.
pub proof fn lemma_state_len(freqs: Seq<int>, k: nat)
    requires
        freqs.len() >= 1,
    ensures
        huffman_state(freqs, k).0.len() == freqs.len(),
        huffman_state(freqs, k).1.len() == freqs.len(),
        huffman_state(freqs, k).2.len() == freqs.len(),
    decreases k,
{
    if k > 0 {
        lemma_state_len(freqs, (k - 1) as nat);
        let s = huffman_state(freqs, (k - 1) as nat);
        lemma_scan_in_range(s.0, seq_sum(freqs), freqs.len() as int);
    }
}

} // verus!
