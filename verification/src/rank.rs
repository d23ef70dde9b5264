//! A number for each partition that grows along the order of visiting, and
//! with it the reasons why the visiting ends.

use crate::encoding::{code_ok, lemma_encode_ok};
use crate::order::{agree, lemma_no_longer_code};
use crate::partition::{canonical, encode, less_at, precedes};
use vstd::prelude::*;
use vstd::relations::injective_on;
use vstd::set_lib::{lemma_int_range, lemma_len_subset, lemma_map_size, set_int_range};

verus! {

/// The entry of `w` at place `i`, and `0` behind the end of `w`.
pub open spec fn digit(w: Seq<usize>, i: int) -> nat {
    if 0 <= i < w.len() {
        w[i] as nat
    } else {
        0
    }
}

/// The first `k` entries of `w` read as the digits of a number in base
/// `base`.
pub open spec fn value(w: Seq<usize>, base: nat, k: nat) -> nat
    decreases k,
{
    if k == 0 {
        0
    } else {
        value(w, base, (k - 1) as nat) * base + digit(w, k - 1)
    }
}

/// `base` to the power of `k`.
pub open spec fn power(base: nat, k: nat) -> nat
    decreases k,
{
    if k == 0 {
        1
    } else {
        power(base, (k - 1) as nat) * base
    }
}

/// The number of a partition of `{1, ..., n}`: what is written for it, read
/// in base `n + 1` and filled up to `2 * n` digits.
pub open spec fn rank(p: Seq<Seq<usize>>, n: nat) -> nat {
    value(encode(p), n + 1, 2 * n)
}

/// Sequences that agree on their first `k` digits have the same value there.
pub proof fn lemma_value_agree(a: Seq<usize>, b: Seq<usize>, base: nat, k: nat)
    requires
        forall|i: int| 0 <= i < k ==> digit(a, i) == digit(b, i),
    ensures
        value(a, base, k) == value(b, base, k),
    decreases k,
{
    if k > 0 {
        lemma_value_agree(a, b, base, (k - 1) as nat);
    }
}

/// A number of `k` digits is less than the `k`th power of the base.
pub proof fn lemma_value_bound(w: Seq<usize>, base: nat, k: nat)
    requires
        forall|i: int| 0 <= i < k ==> digit(w, i) < base,
    ensures
        value(w, base, k) < power(base, k),
    decreases k,
{
    if k > 0 {
        lemma_value_bound(w, base, (k - 1) as nat);
        let v = value(w, base, (k - 1) as nat);
        let p = power(base, (k - 1) as nat);
        let d = digit(w, k - 1);
        assert(v * base + d < p * base) by (nonlinear_arith)
            requires
                v < p,
                d < base,
        ;
    }
}

/// Where two sequences first differ decides which has the greater value.
pub proof fn lemma_value_less(a: Seq<usize>, b: Seq<usize>, base: nat, d: nat, k: nat)
    requires
        forall|i: int| 0 <= i < k ==> digit(a, i) < base && digit(b, i) < base,
        forall|i: int| 0 <= i < d ==> digit(a, i) == digit(b, i),
        digit(a, d as int) < digit(b, d as int),
        d < k,
    ensures
        value(a, base, k) < value(b, base, k),
    decreases k,
{
    let va = value(a, base, (k - 1) as nat);
    let vb = value(b, base, (k - 1) as nat);
    let da = digit(a, k - 1);
    let db = digit(b, k - 1);
    if d == k - 1 {
        lemma_value_agree(a, b, base, d);
    } else {
        lemma_value_less(a, b, base, d, (k - 1) as nat);
        assert(va * base + da < vb * base + db) by (nonlinear_arith)
            requires
                va < vb,
                da < base,
        ;
    }
}

/// What is written for a partition of `{1, ..., n}` has `2 * n` entries at
/// most: no more elements than `n`, and no more separators than elements.
pub proof fn lemma_code_len(w: Seq<usize>, n: nat)
    requires
        code_ok(w, n),
        n <= usize::MAX,
    ensures
        w.len() <= 2 * n,
{
    let len = w.len() as int;
    let all = set_int_range(0, len);
    let full = Set::new(|t: int| 0 <= t < len && w[t] != 0);
    let gaps = Set::new(|t: int| 0 <= t < len && w[t] == 0);
    lemma_int_range(0, len);
    lemma_len_subset(full, all);
    lemma_len_subset(gaps, all);
    // the elements are distinct numbers from 1 to n
    let held = |t: int| w[t];
    let values = full.map(held);
    assert(injective_on(held, full));
    lemma_map_size(full, values, held);
    let back = |i: int| i as usize;
    let range = set_int_range(1, (n + 1) as int);
    let numbers = range.map(back);
    lemma_int_range(1, (n + 1) as int);
    assert(injective_on(back, range));
    lemma_map_size(range, numbers, back);
    assert forall|v: usize| values.contains(v) implies numbers.contains(v) by {
        let t = choose|t: int| full.contains(t) && held(t) == v;
        assert(1 <= w[t] <= n);
        assert(range.contains(v as int) && back(v as int) == v);
    }
    lemma_len_subset(values, numbers);
    // each separator stands before an element
    let next = |t: int| t + 1;
    let after = gaps.map(next);
    assert(injective_on(next, gaps));
    lemma_map_size(gaps, after, next);
    assert forall|t: int| after.contains(t) implies full.contains(t) by {
        let s = choose|s: int| gaps.contains(s) && next(s) == t;
        assert(w[s] == 0);
        assert(s + 1 < len);
        assert(w[t] != 0);
    }
    lemma_len_subset(after, full);
    assert(all =~= gaps + full);
    assert(gaps.disjoint(full));
    vstd::set_lib::lemma_set_disjoint_lens(gaps, full);
}

/// What is visited later has the greater number.
pub proof fn lemma_rank_increases(p: Seq<Seq<usize>>, q: Seq<Seq<usize>>, n: nat)
    requires
        canonical(p, n),
        canonical(q, n),
        precedes(p, q),
    ensures
        rank(p, n) < rank(q, n),
{
    let a = encode(p);
    let b = encode(q);
    lemma_encode_ok(p, n);
    lemma_encode_ok(q, n);
    lemma_code_len(a, n);
    lemma_code_len(b, n);
    let d = choose|d: int| less_at(a, b, d);
    if d == a.len() {
        assert(agree(a, b, a.len() as int));
        lemma_no_longer_code(a, b, n);
    }
    assert forall|i: int| 0 <= i < 2 * n implies digit(a, i) < n + 1 && digit(b, i) < n + 1 by {
        if i < a.len() {
            assert(a[i] <= n);
        }
        if i < b.len() {
            assert(b[i] <= n);
        }
    }
    lemma_value_less(a, b, n + 1, d as nat, 2 * n);
}

/// The number of a partition of `{1, ..., n}` is less than `(n + 1)` to the
/// power of `2 * n`.
pub proof fn lemma_rank_bound(p: Seq<Seq<usize>>, n: nat)
    requires
        canonical(p, n),
    ensures
        rank(p, n) < power(n + 1, 2 * n),
{
    let a = encode(p);
    lemma_encode_ok(p, n);
    assert forall|i: int| 0 <= i < 2 * n implies digit(a, i) < n + 1 by {
        if i < a.len() {
            assert(a[i] <= n);
        }
    }
    lemma_value_bound(a, n + 1, 2 * n);
}

} // verus!
