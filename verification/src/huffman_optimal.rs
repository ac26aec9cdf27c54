//! The Huffman coder is optimal: no prefix code over the same entries costs
//! fewer bits for the given frequencies.
//!
//! The proof walks the coder's steps.  Before each step, any prefix code for
//! the nodes in play can be rearranged, without getting dearer, so that the
//! two nodes the step merges hold sibling codes of greatest length; cutting
//! their last bit gives a prefix code for the nodes in play after the step,
//! cheaper by the merged weight, which is exactly what the step adds to the
//! coder's own cost.
use vstd::prelude::*;

use crate::huffman::{
    huffman_result, huffman_state, initial_state, merge_step, occurrences, scan_minima, seq_sum,
};
use crate::huffman_laws::{
    is_prefix, lemma_invariant, lemma_masked_sum_nonneg,
    lemma_masked_sum_retire, lemma_masked_sum_update_value, lemma_occurrences_concat,
    lemma_occurrences_single, lemma_step_invariant, live_nodes, masked_sum, positive_frequencies,
};

verus! {

/// The bits that codes take for entries with the given frequencies: the sum
/// of each frequency times the length of its code, over the first `m`
/// entries.
pub open spec fn weighted_code_length(freqs: Seq<int>, codes: Seq<Seq<bool>>, m: int) -> int
    decreases m,
{
    if m <= 0 {
        0
    } else {
        weighted_code_length(freqs, codes, m - 1) + freqs[m - 1] * codes[m - 1].len()
    }
}

/// No code of one entry is a prefix of the code of another.
pub open spec fn is_prefix_code(codes: Seq<Seq<bool>>) -> bool {
    forall|i: int, j: int|
        0 <= i < codes.len() && 0 <= j < codes.len() && i != j ==> !is_prefix(
            #[trigger] codes[i],
            #[trigger] codes[j],
        )
}

/// The codes of the flagged nodes below `n` form a prefix code.
spec fn prefix_free_on(d: Seq<Seq<bool>>, al: Seq<bool>, n: int) -> bool {
    forall|x: int, y: int|
        0 <= x < n && 0 <= y < n && x != y && al[x] && al[y] ==> !is_prefix(
            #[trigger] d[x],
            #[trigger] d[y],
        )
}

/// Each weight times the length of its code.
spec fn costs(w: Seq<int>, d: Seq<Seq<bool>>, n: int) -> Seq<int> {
    Seq::new(n as nat, |z: int| w[z] * d[z].len())
}

/// What the codes of the flagged nodes cost.
spec fn cost(w: Seq<int>, al: Seq<bool>, d: Seq<Seq<bool>>, n: int) -> int {
    masked_sum(costs(w, d, n), al, n)
}

/// Every flag set.
spec fn all_set(n: int) -> Seq<bool> {
    Seq::new(n as nat, |x: int| true)
}

/// The sum, over every entry, of its frequency times the number of times it
/// occurs in `grp`.
spec fn group_weight(freqs: Seq<int>, grp: Seq<usize>) -> int {
    masked_sum(
        Seq::new(freqs.len(), |i: int| freqs[i] * occurrences(grp, i)),
        all_set(freqs.len() as int),
        freqs.len() as int,
    )
}

/// What the codes built in `k` steps cost.
spec fn coder_cost(freqs: Seq<int>, k: nat) -> int {
    cost(freqs, all_set(freqs.len() as int), huffman_state(freqs, k).2, freqs.len() as int)
}

proof fn lemma_masked_sum_add(v1: Seq<int>, v2: Seq<int>, v3: Seq<int>, al: Seq<bool>, n: int)
    requires
        0 <= n <= v1.len(),
        n <= v2.len(),
        n <= v3.len(),
        n <= al.len(),
        forall|j: int| 0 <= j < n ==> #[trigger] v3[j] == v1[j] + v2[j],
    ensures
        masked_sum(v3, al, n) == masked_sum(v1, al, n) + masked_sum(v2, al, n),
    decreases n,
{
    if n > 0 {
        lemma_masked_sum_add(v1, v2, v3, al, n - 1);
    }
}

proof fn lemma_masked_sum_ext(v1: Seq<int>, v2: Seq<int>, al: Seq<bool>, n: int)
    requires
        0 <= n <= v1.len(),
        n <= v2.len(),
        n <= al.len(),
        forall|j: int| 0 <= j < n && al[j] ==> #[trigger] v1[j] == v2[j],
    ensures
        masked_sum(v1, al, n) == masked_sum(v2, al, n),
    decreases n,
{
    if n > 0 {
        lemma_masked_sum_ext(v1, v2, al, n - 1);
    }
}

proof fn lemma_masked_sum_indicator(v: Seq<int>, al: Seq<bool>, n: int, x: int)
    requires
        0 <= n <= v.len(),
        n <= al.len(),
        0 <= x < n,
        al[x],
        forall|j: int| 0 <= j < n && j != x ==> #[trigger] v[j] == 0,
    ensures
        masked_sum(v, al, n) == v[x],
    decreases n,
{
    if n - 1 > x {
        lemma_masked_sum_indicator(v, al, n - 1, x);
    } else {
        lemma_masked_sum_zeros(v, al, n - 1);
    }
}

proof fn lemma_masked_sum_zeros(v: Seq<int>, al: Seq<bool>, n: int)
    requires
        0 <= n <= v.len(),
        n <= al.len(),
        forall|j: int| 0 <= j < n ==> #[trigger] v[j] == 0,
    ensures
        masked_sum(v, al, n) == 0,
    decreases n,
{
    if n > 0 {
        lemma_masked_sum_zeros(v, al, n - 1);
    }
}

proof fn lemma_weighted_code_length(freqs: Seq<int>, codes: Seq<Seq<bool>>, m: int)
    requires
        0 <= m <= freqs.len(),
        m <= codes.len(),
    ensures
        weighted_code_length(freqs, codes, m) == masked_sum(
            costs(freqs, codes, freqs.len() as int),
            all_set(freqs.len() as int),
            m,
        ),
    decreases m,
{
    if m > 0 {
        lemma_weighted_code_length(freqs, codes, m - 1);
    }
}

/// A flagged node whose code is longest.
proof fn lemma_longest(d: Seq<Seq<bool>>, al: Seq<bool>, n: int, x0: int) -> (m: int)
    requires
        0 <= x0 < n,
        n <= d.len(),
        n <= al.len(),
        al[x0],
    ensures
        0 <= m < n,
        al[m],
        forall|z: int| 0 <= z < n && al[z] ==> (#[trigger] d[z]).len() <= d[m].len(),
    decreases n,
{
    if n - 1 == x0 {
        if exists|z: int| 0 <= z < n - 1 && al[z] {
            let z0 = choose|z: int| 0 <= z < n - 1 && al[z];
            let m1 = lemma_longest(d, al, n - 1, z0);
            if d[m1].len() >= d[n - 1].len() {
                m1
            } else {
                n - 1
            }
        } else {
            n - 1
        }
    } else {
        let m1 = lemma_longest(d, al, n - 1, x0);
        if al[n - 1] && d[n - 1].len() > d[m1].len() {
            n - 1
        } else {
            m1
        }
    }
}

/// Swapping the codes of two flagged nodes keeps a prefix code and changes
/// its cost by the difference of the weights times the difference of the
/// lengths.
proof fn lemma_swap(w: Seq<int>, al: Seq<bool>, d: Seq<Seq<bool>>, n: int, p: int, q: int)
    requires
        0 <= n <= w.len(),
        n <= al.len(),
        d.len() == n,
        0 <= p < n,
        0 <= q < n,
        p != q,
        al[p],
        al[q],
        prefix_free_on(d, al, n),
    ensures
        ({
            let d2 = d.update(p, d[q]).update(q, d[p]);
            &&& prefix_free_on(d2, al, n)
            &&& cost(w, al, d2, n) == cost(w, al, d, n) + (w[p] - w[q]) * (d[q].len()
                - d[p].len())
        }),
{
    let d2 = d.update(p, d[q]).update(q, d[p]);
    let c = costs(w, d, n);
    let c1 = c.update(p, w[p] * d[q].len());
    let c2 = c1.update(q, w[q] * d[p].len());
    assert(costs(w, d2, n) =~= c2);
    lemma_masked_sum_update_value(c, al, n, p, w[p] * d[q].len());
    lemma_masked_sum_update_value(c1, al, n, q, w[q] * d[p].len());
    assert(w[p] * d[q].len() - w[p] * d[p].len() + (w[q] * d[p].len() - w[q] * d[q].len()) == (
    w[p] - w[q]) * (d[q].len() - d[p].len())) by (nonlinear_arith);
    assert forall|x: int, y: int|
        0 <= x < n && 0 <= y < n && x != y && al[x] && al[y] implies !is_prefix(
        #[trigger] d2[x],
        #[trigger] d2[y],
    ) by {
        let x0 = if x == p {
            q
        } else if x == q {
            p
        } else {
            x
        };
        let y0 = if y == p {
            q
        } else if y == q {
            p
        } else {
            y
        };
        assert(d2[x] == d[x0] && d2[y] == d[y0]);
        assert(!is_prefix(d[x0], d[y0]));
    }
}

/// Cutting the last bit of a longest code whose sibling code no flagged node
/// holds keeps a prefix code.
proof fn lemma_cut_keeps_prefix_free(d: Seq<Seq<bool>>, al: Seq<bool>, n: int, m: int)
    requires
        d.len() == n,
        n <= al.len(),
        0 <= m < n,
        al[m],
        d[m].len() >= 1,
        prefix_free_on(d, al, n),
        forall|z: int| 0 <= z < n && al[z] ==> (#[trigger] d[z]).len() <= d[m].len(),
        forall|z: int|
            0 <= z < n && al[z] && z != m && (#[trigger] d[z]).len() == d[m].len() ==> d[z]
                != d[m].update(d[m].len() - 1, !d[m][d[m].len() - 1]),
    ensures
        prefix_free_on(d.update(m, d[m].take(d[m].len() - 1)), al, n),
{
    let x = d[m];
    let l = x.len() as int;
    let cut = x.take(l - 1);
    let d1 = d.update(m, cut);
    assert forall|a: int, b: int|
        0 <= a < n && 0 <= b < n && a != b && al[a] && al[b] implies !is_prefix(
        #[trigger] d1[a],
        #[trigger] d1[b],
    ) by {
        if a == m {
            let y = d[b];
            assert(d1[b] == y);
            if is_prefix(cut, y) {
                if y.len() == l - 1 {
                    assert(is_prefix(y, x));
                } else {
                    assert(y.len() == l);
                    if y[l - 1] == x[l - 1] {
                        assert(y =~= x);
                        assert(is_prefix(y, x));
                    } else {
                        assert(y =~= x.update(l - 1, !x[l - 1]));
                    }
                }
            }
        } else if b == m {
            let y = d[a];
            assert(d1[a] == y);
            if is_prefix(y, cut) {
                assert(is_prefix(y, x));
            }
        } else {
            assert(d1[a] == d[a] && d1[b] == d[b]);
        }
    }
}

/// Merging nodes `u` and `v` (the lightest and the next lightest of the
/// flagged nodes): any prefix code for the flagged nodes gives a prefix code
/// for the nodes left, `v` weighing both, that costs at least their two
/// weights less.
proof fn lemma_exchange(w: Seq<int>, al: Seq<bool>, d: Seq<Seq<bool>>, n: int, u: int, v: int) -> (d2:
    Seq<Seq<bool>>)
    requires
        0 <= n <= w.len(),
        n <= al.len(),
        d.len() == n,
        0 <= u < n,
        0 <= v < n,
        u != v,
        al[u],
        al[v],
        w[u] >= 0,
        forall|z: int| 0 <= z < n && al[z] ==> w[u] <= #[trigger] w[z],
        forall|z: int| 0 <= z < n && al[z] && z != u ==> w[v] <= #[trigger] w[z],
        prefix_free_on(d, al, n),
    ensures
        d2.len() == n,
        prefix_free_on(d2, al.update(u, false), n),
        cost(w.update(v, w[u] + w[v]), al.update(u, false), d2, n) <= cost(w, al, d, n) - w[u]
            - w[v],
    decreases masked_sum(Seq::new(n as nat, |z: int| d[z].len() as int), al, n),
{
    let m = lemma_longest(d, al, n, u);
    let x = d[m];
    let l = x.len() as int;
    if l == 0 {
        if m == u {
            assert(is_prefix(d[u], d[v]));
        } else {
            assert(is_prefix(d[m], d[u]));
        }
    }
    let sb = x.update(l - 1, !x[l - 1]);
    let lens = Seq::new(n as nat, |z: int| d[z].len() as int);
    if !exists|z: int| 0 <= z < n && al[z] && z != m && #[trigger] d[z] == sb {
        // no node holds the sibling: cut the longest code and go on
        let d1 = d.update(m, x.take(l - 1));
        assert forall|z: int|
            0 <= z < n && al[z] && z != m && (#[trigger] d[z]).len() == d[m].len() implies d[z]
            != d[m].update(d[m].len() - 1, !d[m][d[m].len() - 1]) by {}
        lemma_cut_keeps_prefix_free(d, al, n, m);
        let lens1 = Seq::new(n as nat, |z: int| d1[z].len() as int);
        assert(lens1 =~= lens.update(m, l - 1));
        lemma_masked_sum_update_value(lens, al, n, m, l - 1);
        let c = costs(w, d, n);
        assert(costs(w, d1, n) =~= c.update(m, w[m] * (l - 1)));
        lemma_masked_sum_update_value(c, al, n, m, w[m] * (l - 1));
        assert(w[m] * (l - 1) - w[m] * l == -w[m]) by (nonlinear_arith);
        assert forall|j: int| 0 <= j < n && al[j] implies #[trigger] lens1[j] >= 0 by {}
        lemma_masked_sum_nonneg(lens1, al, n);
        let d2 = lemma_exchange(w, al, d1, n, u, v);
        d2
    } else {
        let z = choose|z: int| 0 <= z < n && al[z] && z != m && #[trigger] d[z] == sb;
        assert(d[z].len() == l);
        // move the longest code to `u`
        let d1 = if u == m {
            d
        } else {
            d.update(u, d[m]).update(m, d[u])
        };
        if u != m {
            lemma_swap(w, al, d, n, u, m);
            assert((w[u] - w[m]) * (d[m].len() - d[u].len()) <= 0) by (nonlinear_arith)
                requires
                    w[u] <= w[m],
                    d[u].len() <= d[m].len(),
            ;
        }
        let z1 = if z == u {
            m
        } else {
            z
        };
        assert(d1[u] == x);
        assert(d1[z1] == sb);
        assert(z1 != u) by {
            if z1 == u {
                assert(x[l - 1] != sb[l - 1]);
            }
        }
        assert forall|y: int| 0 <= y < n && al[y] implies (#[trigger] d1[y]).len() <= l by {
            if u != m && y == u {
            } else if u != m && y == m {
            } else {
                assert(d1[y] == d[y]);
            }
        }
        // move the sibling code to `v`
        let d2 = if v == z1 {
            d1
        } else {
            d1.update(v, d1[z1]).update(z1, d1[v])
        };
        if v != z1 {
            lemma_swap(w, al, d1, n, v, z1);
            assert((w[v] - w[z1]) * (d1[z1].len() - d1[v].len()) <= 0) by (nonlinear_arith)
                requires
                    w[v] <= w[z1],
                    d1[v].len() <= d1[z1].len(),
            ;
        }
        assert(d2[u] == x);
        assert(d2[v] == sb);
        assert forall|y: int| 0 <= y < n && al[y] implies (#[trigger] d2[y]).len() <= l by {
            if v != z1 && y == v {
            } else if v != z1 && y == z1 {
            } else {
                assert(d2[y] == d1[y]);
            }
        }
        // give `v` the parent of the two codes and retire `u`
        let cut = x.take(l - 1);
        let d3 = d2.update(v, cut);
        let al2 = al.update(u, false);
        let w2 = w.update(v, w[u] + w[v]);
        assert forall|a: int, b: int|
            0 <= a < n && 0 <= b < n && a != b && al2[a] && al2[b] implies !is_prefix(
            #[trigger] d3[a],
            #[trigger] d3[b],
        ) by {
            if a == v {
                let y = d2[b];
                assert(d3[b] == y);
                assert(!is_prefix(y, x) && !is_prefix(x, y));
                assert(!is_prefix(y, sb) && !is_prefix(sb, y));
                if is_prefix(cut, y) {
                    if y.len() == l - 1 {
                        assert(is_prefix(y, x));
                    } else {
                        assert(y.len() == l);
                        if y[l - 1] == x[l - 1] {
                            assert(is_prefix(x, y));
                        } else {
                            assert(is_prefix(sb, y));
                        }
                    }
                }
            } else if b == v {
                let y = d2[a];
                assert(d3[a] == y);
                assert(!is_prefix(y, x));
                if is_prefix(y, cut) {
                    assert(is_prefix(y, x));
                }
            } else {
                assert(d3[a] == d2[a] && d3[b] == d2[b]);
            }
        }
        let c = costs(w, d2, n);
        lemma_masked_sum_retire(c, al, n, u);
        let cr = c.update(v, w2[v] * (l - 1));
        assert(costs(w2, d3, n) =~= cr);
        lemma_masked_sum_update_value(c, al2, n, v, w2[v] * (l - 1));
        assert((w[u] + w[v]) * (l - 1) - w[v] * l - w[u] * l == -w[u] - w[v]) by (nonlinear_arith);
        d3
    }
}

/// The weight of every node in play is the weight of the entries in its
/// group.
proof fn lemma_group_weights(freqs: Seq<int>, k: nat)
    requires
        positive_frequencies(freqs),
        freqs.len() >= 2,
        k <= freqs.len() - 1,
    ensures
        forall|x: int|
            0 <= x < freqs.len() && #[trigger] live_nodes(freqs, k)[x] ==> huffman_state(
                freqs,
                k,
            ).0[x] == group_weight(freqs, huffman_state(freqs, k).1[x]),
    decreases k,
{
    let n = freqs.len() as int;
    if k == 0 {
        let s = huffman_state(freqs, 0);
        assert(s == initial_state(freqs));
        assert forall|x: int| 0 <= x < n && #[trigger] live_nodes(freqs, 0)[x] implies s.0[x]
            == group_weight(freqs, s.1[x]) by {
            let v = Seq::new(freqs.len(), |i: int| freqs[i] * occurrences(s.1[x], i));
            assert forall|i: int| 0 <= i < n && i != x implies #[trigger] v[i] == 0 by {
                lemma_occurrences_single(x as usize, i);
            }
            lemma_occurrences_single(x as usize, x);
            lemma_masked_sum_indicator(v, all_set(n), n, x);
        }
    } else {
        let k0 = (k - 1) as nat;
        lemma_group_weights(freqs, k0);
        lemma_invariant(freqs, k0);
        lemma_step_invariant(freqs, k0);
        let sum = seq_sum(freqs);
        let s = huffman_state(freqs, k0);
        let s2 = huffman_state(freqs, k);
        let al = live_nodes(freqs, k0);
        let (a, ai, b, bi) = scan_minima(s.0, sum, n);
        assert(s2 == merge_step(s, sum));
        assert(live_nodes(freqs, k) == al.update(ai, false));
        assert forall|x: int| 0 <= x < n && #[trigger] live_nodes(freqs, k)[x] implies s2.0[x]
            == group_weight(freqs, s2.1[x]) by {
            if x == bi {
                let va = Seq::new(freqs.len(), |i: int| freqs[i] * occurrences(s.1[ai], i));
                let vb = Seq::new(freqs.len(), |i: int| freqs[i] * occurrences(s.1[bi], i));
                let vc = Seq::new(freqs.len(), |i: int| freqs[i] * occurrences(s2.1[bi], i));
                assert forall|i: int| 0 <= i < n implies #[trigger] vc[i] == vb[i] + va[i] by {
                    lemma_occurrences_concat(s.1[bi], s.1[ai], i);
                    let f = freqs[i];
                    let p = occurrences(s.1[bi], i) as int;
                    let q = occurrences(s.1[ai], i) as int;
                    assert(f * (p + q) == f * p + f * q) by (nonlinear_arith);
                }
                lemma_masked_sum_add(vb, va, vc, all_set(n), n);
            } else {
                assert(s2.1[x] == s.1[x]);
            }
        }
    }
}

/// Each step adds the weights of the two nodes it merges to the cost of the
/// codes built so far.
proof fn lemma_coder_cost_step(freqs: Seq<int>, k: nat)
    requires
        positive_frequencies(freqs),
        freqs.len() >= 2,
        k < freqs.len() - 1,
    ensures
        ({
            let s = huffman_state(freqs, k);
            let (a, ai, b, bi) = scan_minima(s.0, seq_sum(freqs), freqs.len() as int);
            coder_cost(freqs, k + 1) == coder_cost(freqs, k) + a + b
        }),
{
    let n = freqs.len() as int;
    lemma_invariant(freqs, k);
    lemma_step_invariant(freqs, k);
    lemma_group_weights(freqs, k);
    let s = huffman_state(freqs, k);
    let s2 = huffman_state(freqs, k + 1);
    let (a, ai, b, bi) = scan_minima(s.0, seq_sum(freqs), n);
    let va = Seq::new(freqs.len(), |i: int| freqs[i] * occurrences(s.1[ai], i));
    let vb = Seq::new(freqs.len(), |i: int| freqs[i] * occurrences(s.1[bi], i));
    let vab = Seq::new(freqs.len(), |i: int| va[i] + vb[i]);
    let c = costs(freqs, s.2, n);
    let c2 = costs(freqs, s2.2, n);
    assert forall|i: int| 0 <= i < n implies #[trigger] c2[i] == c[i] + vab[i] by {
        let f = freqs[i];
        let l = s.2[i].len() as int;
        let p = occurrences(s.1[ai], i) as int;
        let q = occurrences(s.1[bi], i) as int;
        assert(s2.2[i].len() == l + p + q);
        assert(f * (l + p + q) == f * l + (f * p + f * q)) by (nonlinear_arith);
    }
    lemma_masked_sum_add(c, vab, c2, all_set(n), n);
    lemma_masked_sum_add(va, vb, vab, all_set(n), n);
}

/// From any step on, the coder's final cost is at most the cost so far plus
/// the cost of any prefix code for the nodes in play.
proof fn lemma_optimal_from(freqs: Seq<int>, k: nat, d: Seq<Seq<bool>>)
    requires
        positive_frequencies(freqs),
        freqs.len() >= 2,
        k <= freqs.len() - 1,
        d.len() == freqs.len(),
        prefix_free_on(d, live_nodes(freqs, k), freqs.len() as int),
    ensures
        coder_cost(freqs, (freqs.len() - 1) as nat) <= coder_cost(freqs, k) + cost(
            huffman_state(freqs, k).0,
            live_nodes(freqs, k),
            d,
            freqs.len() as int,
        ),
    decreases freqs.len() - 1 - k,
{
    let n = freqs.len() as int;
    let sum = seq_sum(freqs);
    lemma_invariant(freqs, k);
    let s = huffman_state(freqs, k);
    let al = live_nodes(freqs, k);
    if k == n - 1 {
        let c = costs(s.0, d, n);
        assert forall|j: int| 0 <= j < n && al[j] implies #[trigger] c[j] >= 0 by {
            assert(s.0[j] >= 1);
            let l = d[j].len() as int;
            assert(s.0[j] * l >= 0) by (nonlinear_arith)
                requires
                    s.0[j] >= 1,
                    l >= 0,
            ;
        }
        lemma_masked_sum_nonneg(c, al, n);
    } else {
        lemma_step_invariant(freqs, k);
        let (a, ai, b, bi) = scan_minima(s.0, sum, n);
        let s2 = huffman_state(freqs, k + 1);
        assert(s2 == merge_step(s, sum));
        assert(live_nodes(freqs, k + 1) == al.update(ai, false));
        assert(s.0[ai] >= 1);
        let d2 = lemma_exchange(s.0, al, d, n, ai, bi);
        lemma_optimal_from(freqs, k + 1, d2);
        lemma_masked_sum_ext(
            costs(s2.0, d2, n),
            costs(s.0.update(bi, a + b), d2, n),
            al.update(ai, false),
            n,
        );
        lemma_coder_cost_step(freqs, k);
    }
}

/// No prefix code over the entries, each code at least one bit long, takes
/// fewer bits for the given frequencies than the codes the coder builds.
pub proof fn law_huffman_is_optimal(freqs: Seq<int>, codes: Seq<Seq<bool>>)
    requires
        positive_frequencies(freqs),
        codes.len() == freqs.len(),
        is_prefix_code(codes),
        forall|i: int| 0 <= i < codes.len() ==> (#[trigger] codes[i]).len() >= 1,
    ensures
        weighted_code_length(freqs, huffman_result(freqs).2, freqs.len() as int)
            <= weighted_code_length(freqs, codes, freqs.len() as int),
{
    let n = freqs.len() as int;
    let h = huffman_result(freqs).2;
    lemma_result_len(freqs);
    lemma_weighted_code_length(freqs, h, n);
    lemma_weighted_code_length(freqs, codes, n);
    if n == 1 {
        assert(huffman_result(freqs) == initial_state(freqs));
        assert(h[0].len() == 1);
        assert(weighted_code_length(freqs, h, 0) == 0);
        assert(weighted_code_length(freqs, codes, 0) == 0);
        assert(weighted_code_length(freqs, h, 1) == freqs[0] * 1);
        assert(weighted_code_length(freqs, codes, 1) == freqs[0] * codes[0].len());
        assert(freqs[0] * 1 <= freqs[0] * codes[0].len()) by (nonlinear_arith)
            requires
                freqs[0] >= 1,
                codes[0].len() >= 1,
        ;
    } else {
        let s0 = huffman_state(freqs, 0);
        assert(s0 == initial_state(freqs));
        assert(live_nodes(freqs, 0) == all_set(n));
        lemma_optimal_from(freqs, 0, codes);
        assert forall|j: int| 0 <= j < n implies #[trigger] costs(freqs, s0.2, n)[j] == 0 by {
            assert(s0.2[j].len() == 0);
        }
        lemma_masked_sum_zeros(costs(freqs, s0.2, n), all_set(n), n);
    }
}

proof fn lemma_result_len(freqs: Seq<int>)
    requires
        positive_frequencies(freqs),
    ensures
        huffman_result(freqs).2.len() == freqs.len(),
{
    if freqs.len() >= 2 {
        lemma_invariant(freqs, (freqs.len() - 1) as nat);
    } else {
        assert(huffman_result(freqs) == initial_state(freqs));
    }
}

} // verus!
