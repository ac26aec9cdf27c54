//! What the Huffman coder guarantees when every frequency is positive: it
//! never overflows, the codes it builds form a prefix code, and a more
//! frequent entry never gets a longer code.
use vstd::prelude::*;

use crate::huffman::{
    huffman_defined, huffman_result, huffman_state, initial_state, merge_step, occurrences,
    repeat_bit, scan_minima, seq_sum, step_fits,
};

verus! {

/// `a` is a prefix of `b`.
pub open spec fn is_prefix(a: Seq<bool>, b: Seq<bool>) -> bool {
    &&& a.len() <= b.len()
    &&& forall|k: int| 0 <= k < a.len() ==> a[k] == b[k]
}

/// The codes of the indices in `group` form a prefix code.
pub open spec fn group_is_prefix_code(group: Seq<usize>, c: Seq<Seq<bool>>, n: int) -> bool {
    forall|i: int, j: int|
        #![trigger occurrences(group, i), occurrences(group, j)]
        0 <= i < n && 0 <= j < n && i != j && occurrences(group, i) >= 1 && occurrences(group, j)
            >= 1 ==> !is_prefix(c[i], c[j])
}

/// Sum of the first `n` values whose flag is set.
pub open spec fn masked_sum(v: Seq<int>, alive: Seq<bool>, n: int) -> int
    decreases n,
{
    if n <= 0 {
        0
    } else {
        masked_sum(v, alive, n - 1) + if alive[n - 1] {
            v[n - 1]
        } else {
            0
        }
    }
}

/// `n` ones.
pub open spec fn ones(n: int) -> Seq<int> {
    Seq::new(n as nat, |x: int| 1int)
}

/// How often index `i` occurs in each group.
pub open spec fn occurrence_counts(g: Seq<Seq<usize>>, i: int) -> Seq<int> {
    Seq::new(g.len(), |x: int| occurrences(g[x], i) as int)
}

/// Which nodes are still in play after `k` steps: each step retires its
/// first pick.
pub open spec fn live_nodes(freqs: Seq<int>, k: nat) -> Seq<bool>
    decreases k,
{
    if k == 0 {
        Seq::new(freqs.len(), |x: int| true)
    } else {
        let s = huffman_state(freqs, (k - 1) as nat);
        let (a, ai, b, bi) = scan_minima(s.0, seq_sum(freqs), freqs.len() as int);
        live_nodes(freqs, (k - 1) as nat).update(ai, false)
    }
}

/// Frequencies that are all at least one, with a total that fits a `usize`
/// (and no more of them than a vector holds).
pub open spec fn positive_frequencies(freqs: Seq<int>) -> bool {
    &&& 1 <= freqs.len() <= usize::MAX
    &&& seq_sum(freqs) <= usize::MAX
    &&& forall|i: int| 0 <= i < freqs.len() ==> #[trigger] freqs[i] >= 1
}

/// What holds after `k` steps on positive frequencies: `n - k` nodes are in
/// play, their weights are positive and add up to the total, retired nodes
/// weigh the total, every index lies in exactly one group of a node in play,
/// the codes within each such group form a prefix code, and no code is
/// longer than `k`.
pub open spec fn coding_invariant(freqs: Seq<int>, k: nat) -> bool {
    let n = freqs.len() as int;
    let sum = seq_sum(freqs);
    let s = huffman_state(freqs, k);
    let al = live_nodes(freqs, k);
    &&& s.0.len() == n
    &&& s.1.len() == n
    &&& s.2.len() == n
    &&& al.len() == n
    &&& masked_sum(ones(n), al, n) == n - k
    &&& masked_sum(s.0, al, n) == sum
    &&& forall|x: int| 0 <= x < n ==> (#[trigger] al[x] ==> s.0[x] >= 1) && (!al[x] ==> s.0[x] == sum)
    &&& forall|i: int| 0 <= i < n ==> masked_sum(#[trigger] occurrence_counts(s.1, i), al, n) == 1
    &&& forall|x: int|
        0 <= x < n && al[x] ==> group_is_prefix_code(#[trigger] s.1[x], s.2, n)
    &&& forall|i: int| 0 <= i < n ==> (#[trigger] s.2[i]).len() <= k
}

pub(crate) proof fn lemma_masked_sum_update_value(v: Seq<int>, al: Seq<bool>, n: int, x: int, y: int)
    requires
        0 <= n <= v.len(),
        n <= al.len(),
        0 <= x < v.len(),
    ensures
        masked_sum(v.update(x, y), al, n) == masked_sum(v, al, n) + if x < n && al[x] {
            y - v[x]
        } else {
            0
        },
    decreases n,
{
    if n > 0 {
        lemma_masked_sum_update_value(v, al, n - 1, x, y);
    }
}

pub(crate) proof fn lemma_masked_sum_retire(v: Seq<int>, al: Seq<bool>, n: int, x: int)
    requires
        0 <= n <= v.len(),
        n <= al.len(),
        0 <= x < al.len(),
    ensures
        masked_sum(v, al.update(x, false), n) == masked_sum(v, al, n) - if x < n && al[x] {
            v[x]
        } else {
            0
        },
    decreases n,
{
    if n > 0 {
        lemma_masked_sum_retire(v, al, n - 1, x);
    }
}

pub(crate) proof fn lemma_masked_sum_nonneg(v: Seq<int>, al: Seq<bool>, n: int)
    requires
        0 <= n <= v.len(),
        n <= al.len(),
        forall|j: int| 0 <= j < n && al[j] ==> #[trigger] v[j] >= 0,
    ensures
        masked_sum(v, al, n) >= 0,
    decreases n,
{
    if n > 0 {
        lemma_masked_sum_nonneg(v, al, n - 1);
    }
}

/// A sum of non-negative values is at least any one of them, or any two.
proof fn lemma_masked_sum_ge(v: Seq<int>, al: Seq<bool>, n: int, x: int, y: int)
    requires
        0 <= n <= v.len(),
        n <= al.len(),
        forall|j: int| 0 <= j < n && al[j] ==> #[trigger] v[j] >= 0,
        0 <= x < n,
        al[x],
    ensures
        masked_sum(v, al, n) >= v[x],
        0 <= y < n && al[y] && y != x ==> masked_sum(v, al, n) >= v[x] + v[y],
    decreases n,
{
    lemma_masked_sum_nonneg(v, al, n - 1);
    if x < n - 1 {
        lemma_masked_sum_ge(v, al, n - 1, x, y);
    } else if 0 <= y < n - 1 && al[y] {
        lemma_masked_sum_ge(v, al, n - 1, y, x);
    }
}

/// A positive count of flags set means some flag below `n` is set.
proof fn lemma_some_live(al: Seq<bool>, n: int) -> (x: int)
    requires
        0 <= n <= al.len(),
        masked_sum(ones(al.len() as int), al, n) >= 1,
    ensures
        0 <= x < n,
        al[x],
    decreases n,
{
    if al[n - 1] {
        n - 1
    } else {
        lemma_some_live(al, n - 1)
    }
}

/// With a single flag set, a masked sum is the value at that flag.
proof fn lemma_masked_sum_single(v: Seq<int>, al: Seq<bool>, n: int, x: int)
    requires
        0 <= n <= v.len(),
        n <= al.len(),
        0 <= x < n,
        al[x],
        forall|j: int| 0 <= j < n && al[j] ==> j == x,
    ensures
        masked_sum(v, al, n) == v[x],
    decreases n,
{
    if n - 1 > x {
        lemma_masked_sum_single(v, al, n - 1, x);
    } else {
        lemma_masked_sum_zero(v, al, n - 1);
    }
}

proof fn lemma_masked_sum_zero(v: Seq<int>, al: Seq<bool>, n: int)
    requires
        0 <= n <= v.len(),
        n <= al.len(),
        forall|j: int| 0 <= j < n ==> !al[j],
    ensures
        masked_sum(v, al, n) == 0,
    decreases n,
{
    if n > 0 {
        lemma_masked_sum_zero(v, al, n - 1);
    }
}

proof fn lemma_masked_sum_all(v: Seq<int>, n: int)
    requires
        0 <= n <= v.len(),
    ensures
        masked_sum(v, Seq::new(v.len(), |x: int| true), n) == seq_sum(v.take(n)),
    decreases n,
{
    if n > 0 {
        lemma_masked_sum_all(v, n - 1);
        assert(v.take(n).drop_last() =~= v.take(n - 1));
    }
}

proof fn lemma_indicator_sum(v: Seq<int>, al: Seq<bool>, n: int, i: int)
    requires
        0 <= n <= v.len(),
        n <= al.len(),
        forall|j: int| 0 <= j < al.len() ==> #[trigger] al[j],
        forall|j: int| 0 <= j < v.len() ==> #[trigger] v[j] == if j == i {
            1int
        } else {
            0int
        },
    ensures
        masked_sum(v, al, n) == if 0 <= i < n {
            1int
        } else {
            0int
        },
    decreases n,
{
    if n > 0 {
        lemma_indicator_sum(v, al, n - 1, i);
    }
}

pub(crate) proof fn lemma_occurrences_single(x: usize, i: int)
    ensures
        occurrences(seq![x], i) == if x == i {
            1nat
        } else {
            0nat
        },
{
    assert(seq![x].drop_last() =~= Seq::<usize>::empty());
    assert(occurrences(Seq::<usize>::empty(), i) == 0);
}

pub(crate) proof fn lemma_occurrences_concat(s: Seq<usize>, t: Seq<usize>, x: int)
    ensures
        occurrences(s + t, x) == occurrences(s, x) + occurrences(t, x),
    decreases t.len(),
{
    if t.len() == 0 {
        assert(s + t =~= s);
    } else {
        lemma_occurrences_concat(s, t.drop_last(), x);
        assert((s + t).drop_last() =~= s + t.drop_last());
    }
}

/// When every weight is at most the starting weight, the first pick of a
/// scan is a lightest node and the second pick, another node, is a lightest
/// among the others.
pub proof fn law_scan_picks_lightest(w: Seq<int>, sum: int, m: int)
    requires
        0 <= m <= w.len(),
        forall|j: int| 0 <= j < m ==> #[trigger] w[j] <= sum,
    ensures
        ({
            let (a, ai, b, bi) = scan_minima(w, sum, m);
            &&& m >= 1 ==> 0 <= ai < m && w[ai] == a && forall|j: int|
                0 <= j < m ==> a <= #[trigger] w[j]
            &&& m == 1 ==> b == sum
            &&& m >= 2 ==> 0 <= bi < m && bi != ai && w[bi] == b && forall|j: int|
                0 <= j < m && j != ai ==> b <= #[trigger] w[j]
        }),
    decreases m,
{
    if m > 0 {
        law_scan_picks_lightest(w, sum, m - 1);
    }
}

proof fn lemma_initial_invariant(freqs: Seq<int>)
    requires
        positive_frequencies(freqs),
        freqs.len() >= 2,
    ensures
        coding_invariant(freqs, 0),
{
    let n = freqs.len() as int;
    let s = huffman_state(freqs, 0);
    let al = live_nodes(freqs, 0);
    assert(s == initial_state(freqs));
    lemma_masked_sum_all(ones(n), n);
    assert(ones(n).take(n) =~= ones(n));
    lemma_ones_sum(n);
    lemma_masked_sum_all(freqs, n);
    assert(freqs.take(n) =~= freqs);
    assert forall|i: int| 0 <= i < n implies masked_sum(
        #[trigger] occurrence_counts(s.1, i),
        al,
        n,
    ) == 1 by {
        let v = occurrence_counts(s.1, i);
        assert forall|j: int| 0 <= j < v.len() implies #[trigger] v[j] == if j == i {
            1int
        } else {
            0int
        } by {
            assert(s.1[j] == seq![j as usize]);
            lemma_occurrences_single(j as usize, i);
        }
        lemma_indicator_sum(v, al, n, i);
    }
    assert forall|x: int| 0 <= x < n && al[x] implies group_is_prefix_code(
        #[trigger] s.1[x],
        s.2,
        n,
    ) by {
        assert(s.1[x] == seq![x as usize]);
        assert forall|i: int| 0 <= i < n implies #[trigger] occurrences(s.1[x], i) == if x == i {
            1nat
        } else {
            0nat
        } by {
            lemma_occurrences_single(x as usize, i);
        }
    }
}

proof fn lemma_ones_sum(n: int)
    requires
        n >= 0,
    ensures
        seq_sum(ones(n)) == n,
    decreases n,
{
    if n > 0 {
        lemma_ones_sum(n - 1);
        assert(ones(n).drop_last() =~= ones(n - 1));
    }
}

/// One step on positive frequencies keeps the invariant, picks two distinct
/// nodes in play, and fits.
pub(crate) proof fn lemma_step_invariant(freqs: Seq<int>, k: nat)
    requires
        positive_frequencies(freqs),
        freqs.len() >= 2,
        k < freqs.len() - 1,
        coding_invariant(freqs, k),
    ensures
        coding_invariant(freqs, k + 1),
        step_fits(huffman_state(freqs, k), seq_sum(freqs)),
        ({
            let s = huffman_state(freqs, k);
            let (a, ai, b, bi) = scan_minima(s.0, seq_sum(freqs), freqs.len() as int);
            &&& 0 <= ai < freqs.len() && 0 <= bi < freqs.len() && ai != bi
            &&& live_nodes(freqs, k)[ai] && live_nodes(freqs, k)[bi]
            &&& s.0[ai] == a && s.0[bi] == b
            &&& forall|x: int| 0 <= x < freqs.len() ==> a <= #[trigger] s.0[x]
            &&& forall|x: int| 0 <= x < freqs.len() && x != ai ==> b <= #[trigger] s.0[x]
            &&& forall|i: int|
                0 <= i < freqs.len() ==> (#[trigger] huffman_state(freqs, k + 1).2[i]).len()
                    == s.2[i].len() + occurrences(s.1[ai], i) + occurrences(s.1[bi], i)
        }),
{
    let n = freqs.len() as int;
    let sum = seq_sum(freqs);
    let s = huffman_state(freqs, k);
    let al = live_nodes(freqs, k);
    let (w, g, c) = s;
    let (a, ai, b, bi) = scan_minima(w, sum, n);
    assert forall|j: int| 0 <= j < n && al[j] implies #[trigger] ones(n)[j] >= 0 by {}
    assert forall|j: int| 0 <= j < n && al[j] implies #[trigger] w[j] >= 0 by {
        assert(al[j] ==> w[j] >= 1);
    }
    // every weight is at most the total
    assert forall|j: int| 0 <= j < n implies #[trigger] w[j] <= sum by {
        if al[j] {
            lemma_masked_sum_ge(w, al, n, j, j);
        }
    }
    law_scan_picks_lightest(w, sum, n);
    // two nodes in play, each lighter than the total
    let x = lemma_some_live(al, n);
    lemma_masked_sum_retire(ones(n), al, n, x);
    let y = lemma_some_live(al.update(x, false), n);
    assert(y != x && al[y]);
    lemma_masked_sum_ge(w, al, n, x, y);
    lemma_masked_sum_ge(w, al, n, y, x);
    assert(w[ai] < sum);
    assert(al[ai]);
    lemma_masked_sum_retire(ones(n), al, n, ai);
    let z = lemma_some_live(al.update(ai, false), n);
    assert(z != ai && al[z]);
    lemma_masked_sum_ge(w, al, n, z, ai);
    assert(w[bi] <= w[z] && w[z] < sum);
    assert(al[bi]);
    lemma_masked_sum_ge(w, al, n, ai, bi);
    // the step fits
    assert forall|i: int| 0 <= i < n implies #[trigger] c[i].len() + occurrences(g[ai], i)
        + occurrences(g[bi], i) <= usize::MAX by {
        let oc = occurrence_counts(g, i);
        assert forall|j: int| 0 <= j < n && al[j] implies #[trigger] oc[j] >= 0 by {}
        lemma_masked_sum_ge(oc, al, n, ai, bi);
        assert(c[i].len() <= k);
    }
    assert(step_fits(s, sum));
    // the new state
    let s2 = huffman_state(freqs, k + 1);
    let al2 = live_nodes(freqs, k + 1);
    assert(s2 == merge_step(s, sum));
    assert(al2 == al.update(ai, false));
    let (w2, g2, c2) = s2;
    assert(w2 == w.update(ai, sum).update(bi, a + b));
    assert(g2 == g.update(bi, g[bi] + g[ai]));
    // count of nodes in play
    lemma_masked_sum_retire(ones(n), al, n, ai);
    // weights
    lemma_masked_sum_update_value(w, al, n, ai, sum);
    lemma_masked_sum_update_value(w.update(ai, sum), al, n, bi, a + b);
    lemma_masked_sum_retire(w2, al, n, ai);
    assert forall|x2: int| 0 <= x2 < n implies (#[trigger] al2[x2] ==> w2[x2] >= 1) && (!al2[x2]
        ==> w2[x2] == sum) by {}
    // every index in exactly one group in play
    assert forall|i: int| 0 <= i < n implies masked_sum(
        #[trigger] occurrence_counts(g2, i),
        al2,
        n,
    ) == 1 by {
        let oc = occurrence_counts(g, i);
        let oc2 = occurrence_counts(g2, i);
        lemma_occurrences_concat(g[bi], g[ai], i);
        assert(oc2 =~= oc.update(bi, oc[bi] + oc[ai]));
        lemma_masked_sum_update_value(oc, al, n, bi, oc[bi] + oc[ai]);
        lemma_masked_sum_retire(oc2, al, n, ai);
    }
    // indices outside the two picked groups keep their codes; those inside
    // get one bit more
    assert forall|i: int| 0 <= i < n implies occurrences(g[ai], i) + occurrences(g[bi], i) <= 1
        && (#[trigger] c2[i] == if occurrences(g[bi], i) == 1 {
        seq![true] + c[i]
    } else if occurrences(g[ai], i) == 1 {
        seq![false] + c[i]
    } else {
        c[i]
    }) by {
        let oc = occurrence_counts(g, i);
        assert forall|j: int| 0 <= j < n && al[j] implies #[trigger] oc[j] >= 0 by {}
        lemma_masked_sum_ge(oc, al, n, ai, bi);
        assert(c2[i] == repeat_bit(true, occurrences(g[bi], i)) + repeat_bit(
            false,
            occurrences(g[ai], i),
        ) + c[i]);
        if occurrences(g[bi], i) == 1 {
            assert(repeat_bit(true, 1) + repeat_bit(false, 0) + c[i] =~= seq![true] + c[i]);
        } else if occurrences(g[ai], i) == 1 {
            assert(repeat_bit(true, 0) + repeat_bit(false, 1) + c[i] =~= seq![false] + c[i]);
        } else {
            assert(repeat_bit(true, 0) + repeat_bit(false, 0) + c[i] =~= c[i]);
        }
    }
    assert forall|i: int| 0 <= i < n implies (#[trigger] c2[i]).len() <= k + 1 by {
        let oc = occurrence_counts(g, i);
        assert forall|j: int| 0 <= j < n && al[j] implies #[trigger] oc[j] >= 0 by {}
        lemma_masked_sum_ge(oc, al, n, ai, bi);
        assert(occurrences(g[ai], i) + occurrences(g[bi], i) <= 1);
        assert(c[i].len() <= k);
    }
    assert forall|i: int| 0 <= i < n implies (#[trigger] c2[i]).len() == c[i].len() + occurrences(
        g[ai],
        i,
    ) + occurrences(g[bi], i) by {
        let oc = occurrence_counts(g, i);
        assert forall|j: int| 0 <= j < n && al[j] implies #[trigger] oc[j] >= 0 by {}
        lemma_masked_sum_ge(oc, al, n, ai, bi);
    }
    // codes within each group in play stay a prefix code
    assert forall|x2: int| 0 <= x2 < n && al2[x2] implies group_is_prefix_code(
        #[trigger] g2[x2],
        c2,
        n,
    ) by {
        assert forall|i: int, j: int|
            0 <= i < n && 0 <= j < n && i != j && #[trigger] occurrences(g2[x2], i) >= 1
                && #[trigger] occurrences(g2[x2], j) >= 1 implies !is_prefix(c2[i], c2[j]) by {
            let oci = occurrence_counts(g, i);
            let ocj = occurrence_counts(g, j);
            assert forall|q: int| 0 <= q < n && al[q] implies #[trigger] oci[q] >= 0 by {}
            assert forall|q: int| 0 <= q < n && al[q] implies #[trigger] ocj[q] >= 0 by {}
            lemma_masked_sum_ge(oci, al, n, ai, bi);
            lemma_masked_sum_ge(ocj, al, n, ai, bi);
            assert(occurrences(g[ai], i) + occurrences(g[bi], i) <= 1);
            assert(occurrences(g[ai], j) + occurrences(g[bi], j) <= 1);
            if x2 == bi {
                lemma_occurrences_concat(g[bi], g[ai], i);
                lemma_occurrences_concat(g[bi], g[ai], j);
                if occurrences(g[bi], i) == 1 && occurrences(g[bi], j) == 1 {
                    assert(group_is_prefix_code(g[bi], c, n));
                    assert(!is_prefix(c[i], c[j]));
                    if is_prefix(c2[i], c2[j]) {
                        assert forall|q: int| 0 <= q < c[i].len() implies c[i][q] == c[j][q] by {
                            assert(c2[i][q + 1] == c2[j][q + 1]);
                        }
                    }
                } else if occurrences(g[ai], i) == 1 && occurrences(g[ai], j) == 1 {
                    assert(group_is_prefix_code(g[ai], c, n));
                    assert(!is_prefix(c[i], c[j]));
                    if is_prefix(c2[i], c2[j]) {
                        assert forall|q: int| 0 <= q < c[i].len() implies c[i][q] == c[j][q] by {
                            assert(c2[i][q + 1] == c2[j][q + 1]);
                        }
                    }
                } else {
                    assert(c2[i][0] != c2[j][0]);
                }
            } else {
                assert(g2[x2] == g[x2]);
                lemma_masked_sum_ge(oci, al, n, x2, ai);
                lemma_masked_sum_ge(oci, al, n, x2, bi);
                lemma_masked_sum_ge(ocj, al, n, x2, ai);
                lemma_masked_sum_ge(ocj, al, n, x2, bi);
                assert(c2[i] == c[i]);
                assert(c2[j] == c[j]);
                assert(group_is_prefix_code(g[x2], c, n));
            }
        }
    }
}

pub(crate) proof fn lemma_invariant(freqs: Seq<int>, k: nat)
    requires
        positive_frequencies(freqs),
        freqs.len() >= 2,
        k <= freqs.len() - 1,
    ensures
        coding_invariant(freqs, k),
    decreases k,
{
    if k == 0 {
        lemma_initial_invariant(freqs);
    } else {
        lemma_invariant(freqs, (k - 1) as nat);
        lemma_step_invariant(freqs, (k - 1) as nat);
    }
}

/// On positive frequencies whose total fits a `usize`, the coder never
/// overflows.
pub proof fn law_positive_frequencies_defined(freqs: Seq<int>)
    requires
        positive_frequencies(freqs),
    ensures
        huffman_defined(freqs),
{
    if freqs.len() >= 2 {
        assert forall|k: nat| k < freqs.len() - 1 implies step_fits(
            #[trigger] huffman_state(freqs, k),
            seq_sum(freqs),
        ) by {
            lemma_invariant(freqs, k);
            lemma_step_invariant(freqs, k);
        }
    }
}

/// On positive frequencies the codes form a prefix code: no code is a prefix
/// of another, so a string of codes reads back in one way only.
pub proof fn law_codes_are_prefix_free(freqs: Seq<int>)
    requires
        positive_frequencies(freqs),
    ensures
        forall|i: int, j: int|
            0 <= i < freqs.len() && 0 <= j < freqs.len() && i != j ==> !is_prefix(
                #[trigger] huffman_result(freqs).2[i],
                #[trigger] huffman_result(freqs).2[j],
            ),
{
    let n = freqs.len() as int;
    if n >= 2 {
        let k = (n - 1) as nat;
        lemma_invariant(freqs, k);
        let s = huffman_state(freqs, k);
        let al = live_nodes(freqs, k);
        assert(huffman_result(freqs) == s);
        let r = lemma_some_live(al, n);
        assert forall|q: int| 0 <= q < n && al[q] implies q == r by {
            if q != r {
                assert forall|j: int| 0 <= j < n && al[j] implies #[trigger] ones(n)[j] >= 0 by {}
                lemma_masked_sum_ge(ones(n), al, n, r, q);
            }
        }
        assert forall|i: int| 0 <= i < n implies occurrences(s.1[r], i) == 1 by {
            lemma_masked_sum_single(occurrence_counts(s.1, i), al, n, r);
        }
        assert(group_is_prefix_code(s.1[r], s.2, n));
        assert forall|i: int, j: int|
            0 <= i < n && 0 <= j < n && i != j implies !is_prefix(
            #[trigger] huffman_result(freqs).2[i],
            #[trigger] huffman_result(freqs).2[j],
        ) by {
            assert(occurrences(s.1[r], i) == 1);
            assert(occurrences(s.1[r], j) == 1);
        }
    }
}

/// Every code is at least one bit long.
pub proof fn law_codes_nonempty(freqs: Seq<int>)
    requires
        positive_frequencies(freqs),
    ensures
        forall|i: int| 0 <= i < freqs.len() ==> #[trigger] huffman_result(freqs).2[i].len() >= 1,
{
    let n = freqs.len() as int;
    if n >= 2 {
        law_codes_are_prefix_free(freqs);
        assert forall|i: int| 0 <= i < n implies #[trigger] huffman_result(freqs).2[i].len()
            >= 1 by {
            let j = if i == 0 {
                1int
            } else {
                0int
            };
            assert(!is_prefix(huffman_result(freqs).2[i], huffman_result(freqs).2[j]));
        }
    } else {
        assert(huffman_result(freqs) == initial_state(freqs));
    }
}

/// On positive frequencies every node ends with the total weight: the last
/// node in play holds the sum of all, and every retired node was given it.
pub proof fn law_final_weights_are_total(freqs: Seq<int>)
    requires
        positive_frequencies(freqs),
    ensures
        forall|i: int|
            0 <= i < freqs.len() ==> #[trigger] huffman_result(freqs).0[i] == seq_sum(freqs),
{
    let n = freqs.len() as int;
    if n >= 2 {
        let k = (n - 1) as nat;
        lemma_invariant(freqs, k);
        let s = huffman_state(freqs, k);
        let al = live_nodes(freqs, k);
        let r = lemma_some_live(al, n);
        assert forall|q: int| 0 <= q < n && al[q] implies q == r by {
            if q != r {
                assert forall|j: int| 0 <= j < n && al[j] implies #[trigger] ones(n)[j] >= 0 by {}
                lemma_masked_sum_ge(ones(n), al, n, r, q);
            }
        }
        lemma_masked_sum_single(s.0, al, n, r);
        assert(huffman_result(freqs) == s);
        assert forall|i: int| 0 <= i < n implies #[trigger] huffman_result(freqs).0[i] == seq_sum(
            freqs,
        ) by {
            if al[i] {
                assert(i == r);
            } else {
                assert(!al[i] ==> s.0[i] == seq_sum(freqs));
            }
        }
    } else {
        assert(huffman_result(freqs) == initial_state(freqs));
        assert(freqs.drop_last() =~= Seq::<int>::empty());
        assert(seq_sum(Seq::<int>::empty()) == 0);
    }
}

/// The coder ends with a root: one node whose group lists every entry
/// exactly once and whose weight is the total of all frequencies.
pub proof fn law_root_group_lists_every_entry(freqs: Seq<int>)
    requires
        positive_frequencies(freqs),
    ensures
        exists|r: int|
            #![trigger huffman_result(freqs).1[r]]
            0 <= r < freqs.len() && huffman_result(freqs).0[r] == seq_sum(freqs) && forall|i: int|
                0 <= i < freqs.len() ==> occurrences(huffman_result(freqs).1[r], i) == 1,
{
    let n = freqs.len() as int;
    law_final_weights_are_total(freqs);
    if n >= 2 {
        let k = (n - 1) as nat;
        lemma_invariant(freqs, k);
        let s = huffman_state(freqs, k);
        let al = live_nodes(freqs, k);
        assert(huffman_result(freqs) == s);
        let r = lemma_some_live(al, n);
        assert forall|q: int| 0 <= q < n && al[q] implies q == r by {
            if q != r {
                assert forall|j: int| 0 <= j < n && al[j] implies #[trigger] ones(n)[j] >= 0 by {}
                lemma_masked_sum_ge(ones(n), al, n, r, q);
            }
        }
        assert forall|i: int| 0 <= i < n implies occurrences(s.1[r], i) == 1 by {
            lemma_masked_sum_single(occurrence_counts(s.1, i), al, n, r);
        }
        assert(huffman_result(freqs).0[r] == seq_sum(freqs));
        assert(0 <= r < n);
        assert(huffman_result(freqs).1[r] == s.1[r]);
    } else {
        assert(huffman_result(freqs) == initial_state(freqs));
        let g = huffman_result(freqs).1[0];
        assert(g == seq![0usize]);
        assert(g.drop_last() =~= Seq::<usize>::empty());
        assert(g.last() == 0usize);
        assert(occurrences(Seq::<usize>::empty(), 0) == 0);
        assert(occurrences(g, 0) == 1);
    }
}

/// A positive masked sum of non-negative values has a positive value at a
/// set flag.
proof fn lemma_some_positive(v: Seq<int>, al: Seq<bool>, n: int) -> (x: int)
    requires
        0 <= n <= v.len(),
        n <= al.len(),
        forall|j: int| 0 <= j < n && al[j] ==> #[trigger] v[j] >= 0,
        masked_sum(v, al, n) >= 1,
    ensures
        0 <= x < n,
        al[x],
        v[x] >= 1,
    decreases n,
{
    lemma_masked_sum_nonneg(v, al, n - 1);
    if al[n - 1] && v[n - 1] >= 1 {
        n - 1
    } else {
        lemma_some_positive(v, al, n - 1)
    }
}

/// The node in play whose group holds index `i`.
spec fn node_of(freqs: Seq<int>, k: nat, i: int) -> int {
    choose|x: int|
        0 <= x < freqs.len() && live_nodes(freqs, k)[x] && occurrences(
            huffman_state(freqs, k).1[x],
            i,
        ) >= 1
}

/// Every index lies in the group of exactly one node in play.
proof fn lemma_member(freqs: Seq<int>, k: nat, i: int)
    requires
        positive_frequencies(freqs),
        freqs.len() >= 2,
        k <= freqs.len() - 1,
        0 <= i < freqs.len(),
    ensures
        ({
            let x = node_of(freqs, k, i);
            let g = huffman_state(freqs, k).1;
            &&& 0 <= x < freqs.len()
            &&& live_nodes(freqs, k)[x]
            &&& occurrences(g[x], i) == 1
            &&& forall|z: int|
                0 <= z < freqs.len() && live_nodes(freqs, k)[z] && z != x ==> occurrences(
                    #[trigger] g[z],
                    i,
                ) == 0
        }),
{
    let n = freqs.len() as int;
    lemma_invariant(freqs, k);
    let g = huffman_state(freqs, k).1;
    let al = live_nodes(freqs, k);
    let oc = occurrence_counts(g, i);
    assert forall|j: int| 0 <= j < n && al[j] implies #[trigger] oc[j] >= 0 by {}
    let x0 = lemma_some_positive(oc, al, n);
    assert(occurrences(g[x0], i) >= 1);
    let x = node_of(freqs, k, i);
    assert(0 <= x < n && al[x] && occurrences(g[x], i) >= 1);
    assert forall|z: int| 0 <= z < n && al[z] && z != x implies occurrences(#[trigger] g[z], i)
        == 0 by {
        lemma_masked_sum_ge(oc, al, n, x, z);
    }
    lemma_masked_sum_ge(oc, al, n, x, x);
}

/// The second weight picked by the step before step `k` (zero before any
/// step): no node in play weighs less.
spec fn merge_floor(freqs: Seq<int>, k: nat) -> int {
    if k == 0 {
        0
    } else {
        scan_minima(huffman_state(freqs, (k - 1) as nat).0, seq_sum(freqs), freqs.len() as int).2
    }
}

/// The weight made by the step before step `k` (zero before any step): no
/// node that was ever merged weighs more.
spec fn merge_top(freqs: Seq<int>, k: nat) -> int {
    if k == 0 {
        0
    } else {
        let (a, ai, b, bi) = scan_minima(
            huffman_state(freqs, (k - 1) as nat).0,
            seq_sum(freqs),
            freqs.len() as int,
        );
        a + b
    }
}

/// What holds after `k` steps of entries `i` and `j`, `i` the more frequent:
/// the code of `i` is no longer than that of `j`; while they lie in
/// different nodes, equal lengths come with a heavier node for `i`, and a
/// code of `j` one bit longer with a node of `j` lighter than the node of
/// `i` and the floor together; a merged node of `j` weighs at most the last
/// weight made.
spec fn order_invariant(freqs: Seq<int>, k: nat, i: int, j: int) -> bool {
    let s = huffman_state(freqs, k);
    let p = s.2[i].len();
    let q = s.2[j].len();
    let x = node_of(freqs, k, i);
    let y = node_of(freqs, k, j);
    let lo = merge_floor(freqs, k);
    let hi = merge_top(freqs, k);
    &&& forall|z: int| 0 <= z < freqs.len() && live_nodes(freqs, k)[z] ==> #[trigger] s.0[z] >= lo
    &&& hi <= 2 * lo
    &&& p <= q
    &&& x != y ==> {
        &&& p == q ==> s.0[x] > s.0[y]
        &&& p + 1 == q ==> s.0[y] < s.0[x] + lo
        &&& q >= 1 ==> s.0[y] <= hi
    }
}

proof fn lemma_order_initial(freqs: Seq<int>, i: int, j: int)
    requires
        positive_frequencies(freqs),
        freqs.len() >= 2,
        0 <= i < freqs.len(),
        0 <= j < freqs.len(),
        freqs[i] > freqs[j],
    ensures
        order_invariant(freqs, 0, i, j),
{
    let s = huffman_state(freqs, 0);
    assert(s == initial_state(freqs));
    lemma_member(freqs, 0, i);
    lemma_member(freqs, 0, j);
    lemma_occurrences_single(i as usize, i);
    lemma_occurrences_single(j as usize, j);
    assert(s.1[i] == seq![i as usize]);
    assert(s.1[j] == seq![j as usize]);
    assert(node_of(freqs, 0, i) == i);
    assert(node_of(freqs, 0, j) == j);
    assert forall|z: int| 0 <= z < freqs.len() && live_nodes(freqs, 0)[z] implies #[trigger] s.0[z]
        >= merge_floor(freqs, 0) by {}
}

proof fn lemma_order_step(freqs: Seq<int>, k: nat, i: int, j: int)
    requires
        positive_frequencies(freqs),
        freqs.len() >= 2,
        k < freqs.len() - 1,
        0 <= i < freqs.len(),
        0 <= j < freqs.len(),
        order_invariant(freqs, k, i, j),
    ensures
        order_invariant(freqs, k + 1, i, j),
{
    let n = freqs.len() as int;
    let sum = seq_sum(freqs);
    lemma_invariant(freqs, k);
    lemma_step_invariant(freqs, k);
    let s = huffman_state(freqs, k);
    let s2 = huffman_state(freqs, k + 1);
    let al = live_nodes(freqs, k);
    let al2 = live_nodes(freqs, k + 1);
    let (w, g, c) = s;
    let (a, ai, b, bi) = scan_minima(w, sum, n);
    assert(s2 == merge_step(s, sum));
    assert(al2 == al.update(ai, false));
    let (w2, g2, c2) = s2;
    assert(w2 == w.update(ai, sum).update(bi, a + b));
    assert(g2 == g.update(bi, g[bi] + g[ai]));
    assert(merge_floor(freqs, k + 1) == b);
    assert(merge_top(freqs, k + 1) == a + b);
    let lo = merge_floor(freqs, k);
    let hi = merge_top(freqs, k);
    lemma_member(freqs, k, i);
    lemma_member(freqs, k, j);
    lemma_member(freqs, k + 1, i);
    lemma_member(freqs, k + 1, j);
    let x = node_of(freqs, k, i);
    let y = node_of(freqs, k, j);
    let x2 = node_of(freqs, k + 1, i);
    let y2 = node_of(freqs, k + 1, j);
    // live weights are positive
    assert(w[ai] >= 1 && w[bi] >= 1);
    assert(a >= lo && b >= lo);
    // where the two indices go
    lemma_occurrences_concat(g[bi], g[ai], i);
    lemma_occurrences_concat(g[bi], g[ai], j);
    let xm = x == ai || x == bi;
    let ym = y == ai || y == bi;
    assert(x2 == if xm {
        bi
    } else {
        x
    }) by {
        if xm {
            assert(occurrences(g2[bi], i) >= 1);
            if x2 != bi {
                assert(occurrences(g2[bi], i) == 0);
            }
        } else {
            assert(occurrences(g[ai], i) == 0 && occurrences(g[bi], i) == 0);
            assert(occurrences(g2[bi], i) == 0);
            assert(al2[x] && g2[x] == g[x]);
            if x2 != x {
                assert(occurrences(g2[x], i) == 0);
            }
        }
    }
    assert(y2 == if ym {
        bi
    } else {
        y
    }) by {
        if ym {
            assert(occurrences(g2[bi], j) >= 1);
            if y2 != bi {
                assert(occurrences(g2[bi], j) == 0);
            }
        } else {
            assert(occurrences(g[ai], j) == 0 && occurrences(g[bi], j) == 0);
            assert(occurrences(g2[bi], j) == 0);
            assert(al2[y] && g2[y] == g[y]);
            if y2 != y {
                assert(occurrences(g2[y], j) == 0);
            }
        }
    }
    // code lengths
    let p = c[i].len();
    let q = c[j].len();
    assert(c2[i].len() == p + if xm {
        1int
    } else {
        0int
    }) by {
        if x == ai {
            assert(occurrences(g[bi], i) == 0);
        } else if x == bi {
            assert(occurrences(g[ai], i) == 0);
        } else {
            assert(occurrences(g[ai], i) == 0 && occurrences(g[bi], i) == 0);
        }
    }
    assert(c2[j].len() == q + if ym {
        1int
    } else {
        0int
    }) by {
        if y == ai {
            assert(occurrences(g[bi], j) == 0);
        } else if y == bi {
            assert(occurrences(g[ai], j) == 0);
        } else {
            assert(occurrences(g[ai], j) == 0 && occurrences(g[bi], j) == 0);
        }
    }
    assert forall|z: int| 0 <= z < n && al2[z] implies #[trigger] w2[z] >= b by {}
    if x != y && xm && !ym {
        // only the node of `i` is merged: its code was shorter
        assert(w[x] <= b && b <= w[y]);
    }
}

/// An entry strictly more frequent than another never gets a longer code.
pub proof fn law_more_frequent_codes_no_longer(freqs: Seq<int>, i: int, j: int)
    requires
        positive_frequencies(freqs),
        0 <= i < freqs.len(),
        0 <= j < freqs.len(),
        freqs[i] > freqs[j],
    ensures
        huffman_result(freqs).2[i].len() <= huffman_result(freqs).2[j].len(),
{
    lemma_order_initial(freqs, i, j);
    lemma_order_upto(freqs, (freqs.len() - 1) as nat, i, j);
}

proof fn lemma_order_upto(freqs: Seq<int>, k: nat, i: int, j: int)
    requires
        positive_frequencies(freqs),
        freqs.len() >= 2,
        k <= freqs.len() - 1,
        0 <= i < freqs.len(),
        0 <= j < freqs.len(),
        order_invariant(freqs, 0, i, j),
    ensures
        order_invariant(freqs, k, i, j),
    decreases k,
{
    if k > 0 {
        lemma_order_upto(freqs, (k - 1) as nat, i, j);
        lemma_order_step(freqs, (k - 1) as nat, i, j);
    }
}

/// Ties go to the later node: no node after the first pick weighs as little
/// as it, and no node after the second pick, but the first, weighs as
/// little as the second.
pub proof fn law_scan_ties_go_to_later(w: Seq<int>, sum: int, m: int)
    requires
        0 <= m <= w.len(),
        forall|j: int| 0 <= j < m ==> #[trigger] w[j] <= sum,
    ensures
        ({
            let (a, ai, b, bi) = scan_minima(w, sum, m);
            &&& forall|j: int| ai < j < m ==> a < #[trigger] w[j]
            &&& forall|j: int| bi < j < m && j != ai ==> b < #[trigger] w[j]
        }),
    decreases m,
{
    if m > 0 {
        law_scan_ties_go_to_later(w, sum, m - 1);
        law_scan_picks_lightest(w, sum, m - 1);
        law_scan_picks_lightest(w, sum, m);
    }
}

} // verus!
