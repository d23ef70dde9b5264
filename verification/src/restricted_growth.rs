//! The partitions of `{0, ..., n - 1}` as restricted growth strings, in
//! lexicographic order: each string is made from the one before it, without
//! recursion.

use crate::indexed::IndexedPartition;
use crate::order::lemma_lex_transitive;
use crate::partition::{less_at, lex_less};
use crate::rank::{digit, lemma_value_bound, lemma_value_less, power, value};
use vstd::multiset::Multiset;
use vstd::seq_lib::lemma_multiset_commutative;
use vstd::prelude::*;

verus! {

/// The greatest part number that element `j` may have, given the part numbers
/// of the elements before it: `0` for the first element, and elsewhere one
/// more than the greatest part number before.
pub open spec fn limit(a: Seq<usize>, j: nat) -> nat
    decreases j,
{
    if j == 0 {
        0
    } else {
        let before = limit(a, (j - 1) as nat);
        if a[j - 1] + 1 > before {
            (a[j - 1] + 1) as nat
        } else {
            before
        }
    }
}

/// Whether `a` is a restricted growth string: no element has a part number
/// above its limit.
pub open spec fn restricted(a: Seq<usize>) -> bool {
    forall|j: nat| j < a.len() ==> a[j as int] <= #[trigger] limit(a, j)
}

/// Whether `b` is the restricted growth string next after `a`: at some place
/// `j` it is greater by one, before `j` it agrees with `a`, and behind `j` it
/// is `0` where `a` is at its limit.
pub open spec fn next_at(a: Seq<usize>, b: Seq<usize>, j: int) -> bool {
    &&& a.len() == b.len()
    &&& 0 <= j < a.len()
    &&& forall|t: int| 0 <= t < j ==> a[t] == b[t]
    &&& b[j] == a[j] + 1
    &&& forall|t: nat| j < t < a.len() ==> b[t as int] == 0 && a[t as int] == #[trigger] limit(a, t)
}

/// Whether `b` is the restricted growth string next after `a`.
pub open spec fn follows(a: Seq<usize>, b: Seq<usize>) -> bool {
    exists|j: int| next_at(a, b, j)
}

/// Whether element `t` of `a` and all behind it are at their limits.
pub open spec fn maxed_from(a: Seq<usize>, from: int) -> bool {
    forall|t: nat| from <= t < a.len() ==> a[t as int] == #[trigger] limit(a, t)
}

/// The limit of an element depends on the elements before it only.
pub proof fn lemma_limit_agree(a: Seq<usize>, b: Seq<usize>, j: nat)
    requires
        j <= a.len(),
        j <= b.len(),
        forall|t: int| 0 <= t < j ==> a[t] == b[t],
    ensures
        limit(a, j) == limit(b, j),
    decreases j,
{
    if j > 0 {
        lemma_limit_agree(a, b, (j - 1) as nat);
    }
}

/// Behind an element the limit is one more than that element at least, and
/// does not fall.
pub proof fn lemma_limit_grows(a: Seq<usize>, i: nat, j: nat)
    requires
        i <= j,
    ensures
        limit(a, i) <= limit(a, j),
        i < j ==> a[i as int] + 1 <= limit(a, j),
    decreases j,
{
    if i < j {
        lemma_limit_grows(a, i, (j - 1) as nat);
    }
}

/// In a restricted growth string element `j` has a part number of `j` at
/// most.
pub proof fn lemma_limit_small(a: Seq<usize>, j: nat)
    requires
        restricted(a),
        j <= a.len(),
    ensures
        limit(a, j) <= j,
    decreases j,
{
    if j > 0 {
        lemma_limit_small(a, (j - 1) as nat);
        assert(a[j - 1] <= limit(a, (j - 1) as nat));
    }
}

/// The restricted growth strings in a list of indexed partitions.
pub open spec fn strings(all: Seq<IndexedPartition>) -> Seq<Seq<usize>> {
    Seq::new(all.len(), |i: int| all[i]@.index)
}

/// A copy of `ip`.
fn snapshot(ip: &IndexedPartition) -> (copy: IndexedPartition)
    ensures
        copy@ == ip@,
{
    let copy = IndexedPartition { part_count: ip.part_count, index: ip.index.clone() };
    proof {
        assert(copy@.index =~= ip@.index);
    }
    copy
}

/// The restricted growth strings of length `n` in lexicographic order, each
/// once and each with the number of its parts. For fewer than two elements
/// there is one string, and its parts are not counted.
pub fn partitions(n: usize) -> (all: Vec<IndexedPartition>)
    ensures
        strings(all@) == extensions(n as nat, Seq::empty()),
        all@.len() >= 1,
        forall|i: int| 0 <= i < all@.len() ==> (#[trigger] all@[i])@.index.len() == n,
        forall|i: int| 0 <= i < all@.len() ==> restricted((#[trigger] all@[i])@.index),
        all@[0]@.index == Seq::new(n as nat, |i: int| 0usize),
        maxed_from(all@[all@.len() - 1]@.index, 0),
        forall|i: int|
            0 <= i && i + 1 < all@.len() ==> follows(
                (#[trigger] all@[i])@.index,
                all@[i + 1]@.index,
            ),
        n < 2 ==> all@.len() == 1 && all@[0]@.part_count == 0,
        n >= 2 ==> forall|i: int|
            0 <= i < all@.len() ==> (#[trigger] all@[i])@.part_count == limit(
                all@[i]@.index,
                n as nat,
            ),
{
    let mut all: Vec<IndexedPartition> = Vec::new();
    let mut ip = IndexedPartition::new(n);
    proof {
        let zeros = ip@.index;
        assert forall|j: nat| j < zeros.len() implies zeros[j as int] <= #[trigger] limit(
            zeros,
            j,
        ) by {}
    }
    if n == 0 {
        all.push(snapshot(&ip));
        proof {
            assert(ip@.index =~= Seq::<usize>::empty());
            assert(strings(all@) =~= extensions(0, Seq::empty()));
        }
        return all;
    }
    if n == 1 {
        all.push(snapshot(&ip));
        proof {
            assert(limit(ip@.index, 0) == 0);
            lemma_chain_is_all(strings(all@), 1);
        }
        return all;
    }
    let mut b: Vec<usize> = Vec::new();
    let mut i: usize = 0;
    while i < n - 1
        invariant
            n >= 2,
            i <= n - 1,
            b@.len() == i,
            forall|t: int| 0 <= t < i ==> b@[t] == 1,
        decreases n - 1 - i,
    {
        b.push(1);
        i += 1;
    }
    let mut m: usize = 1;
    proof {
        lemma_zeros_limits(ip@.index, n as nat);
    }
    let ghost top = power(n as nat, n as nat);
    loop
        invariant_except_break
            n >= 2,
            ip@.index.len() == n,
            b@.len() == n - 1,
            restricted(ip@.index),
            b@[0] == 1,
            forall|t: nat| 1 <= t < n - 1 ==> b@[t as int] == #[trigger] limit(ip@.index, t),
            m == limit(ip@.index, (n - 1) as nat),
            all@.len() == 0 ==> ip@.index == Seq::new(n as nat, |i: int| 0usize),
            all@.len() > 0 ==> follows(all@[all@.len() - 1]@.index, ip@.index),
        invariant
            n >= 2,
            top == power(n as nat, n as nat),
            forall|i: int| 0 <= i < all@.len() ==> (#[trigger] all@[i])@.index.len() == n,
            forall|i: int| 0 <= i < all@.len() ==> restricted((#[trigger] all@[i])@.index),
            all@.len() > 0 ==> all@[0]@.index == Seq::new(n as nat, |i: int| 0usize),
            forall|i: int|
                0 <= i && i + 1 < all@.len() ==> follows(
                    (#[trigger] all@[i])@.index,
                    all@[i + 1]@.index,
                ),
            forall|i: int|
                0 <= i < all@.len() ==> (#[trigger] all@[i])@.part_count == limit(
                    all@[i]@.index,
                    n as nat,
                ),
            all@.len() > 0 ==> value(all@[all@.len() - 1]@.index, n as nat, n as nat) + 1
                >= all@.len(),
            all@.len() <= top,
        ensures
            all@.len() >= 1,
            maxed_from(all@[all@.len() - 1]@.index, 0),
        decreases top - all@.len(),
    {
        let ghost a = ip@.index;
        proof {
            lemma_limit_small(a, (n - 1) as nat);
            assert(a[n - 1] <= limit(a, (n - 1) as nat));
        }
        let an_maxed = ip.index[n - 1] == m;
        ip.part_count = if an_maxed {
            m + 1
        } else {
            m
        };
        let ghost before = all@;
        all.push(snapshot(&ip));
        proof {
            lemma_digits(a, n as nat);
            lemma_value_bound(a, n as nat, n as nat);
            if before.len() > 0 {
                let prev = before[before.len() - 1]@.index;
                let j = choose|j: int| next_at(prev, a, j);
                lemma_next_greater(prev, a, j, n as nat);
            }
            assert forall|i: int| 0 <= i && i + 1 < all@.len() implies follows(
                (#[trigger] all@[i])@.index,
                all@[i + 1]@.index,
            ) by {
                if i + 1 < before.len() {
                    assert(all@[i] == before[i] && all@[i + 1] == before[i + 1]);
                    assert(follows(before[i]@.index, before[i + 1]@.index));
                } else {
                    assert(all@[i] == before[i]);
                }
            }
        }
        if an_maxed {
            let mut j: usize = n - 2;
            proof {
                assert(a[0] <= limit(a, 0));
            }
            while ip.index[j] == b[j]
                invariant
                    n >= 2,
                    j <= n - 2,
                    ip@.index == a,
                    a.len() == n,
                    b@.len() == n - 1,
                    b@[0] == 1,
                    a[0] == 0,
                    forall|t: nat| 1 <= t < n - 1 ==> b@[t as int] == #[trigger] limit(a, t),
                    forall|t: nat| j < t < n ==> a[t as int] == #[trigger] limit(a, t),
                decreases j,
            {
                proof {
                    assert(a[j as int] == b@[j as int]);
                    assert(j != 0);
                    assert(b@[j as int] == limit(a, j as nat));
                }
                j -= 1;
            }
            if j == 0 {
                proof {
                    assert(limit(a, 0) == 0);
                    assert(maxed_from(a, 0));
                }
                break;
            }
            proof {
                assert(a[j as int] != b@[j as int]);
                assert(b@[j as int] == limit(a, j as nat));
                assert(a[j as int] <= limit(a, j as nat));
                lemma_limit_small(a, j as nat);
            }
            ip.index[j] += 1;
            let aj_maxed = ip.index[j] == b[j];
            m = if aj_maxed {
                b[j] + 1
            } else {
                b[j]
            };
            let ghost pivot = j;
            let ghost raised = ip@.index;
            proof {
                assert(raised == a.update(pivot as int, (a[pivot as int] + 1) as usize));
            }
            j += 1;
            while j < n - 1
                invariant
                    n >= 2,
                    pivot < j <= n - 1,
                    ip@.index.len() == n,
                    b@.len() == n - 1,
                    b@[0] == 1,
                    m >= 1,
                    a.len() == n,
                    raised == a.update(pivot as int, (a[pivot as int] + 1) as usize),
                    forall|t: int| 0 <= t <= pivot ==> ip@.index[t] == raised[t],
                    forall|t: int| pivot < t < j ==> ip@.index[t] == 0,
                    forall|t: nat| 1 <= t <= pivot ==> b@[t as int] == #[trigger] limit(a, t),
                    forall|t: int| pivot < t < j && t < n - 1 ==> b@[t] == m,
                decreases n - 1 - j,
            {
                ip.index[j] = 0;
                b[j] = m;
                j += 1;
            }
            let ghost mid = ip@.index;
            ip.index[n - 1] = 0;
            proof {
                let c = ip@.index;
                assert forall|t: int| 0 <= t < pivot implies c[t] == a[t] by {
                    assert(mid[t] == raised[t]);
                }
                assert(mid[pivot as int] == raised[pivot as int]);
                assert(c[pivot as int] == a[pivot as int] + 1);
                assert forall|t: int| pivot < t < c.len() implies c[t] == 0 by {
                    if t < n - 1 {
                        assert(mid[t] == 0);
                    }
                }
                lemma_raised(a, c, pivot as int, m as nat);
                assert(next_at(a, c, pivot as int));
                assert forall|t: nat| 1 <= t < n - 1 implies b@[t as int] == #[trigger] limit(
                    c,
                    t,
                ) by {
                    if t <= pivot {
                        lemma_limit_agree(a, c, t);
                    } else {
                        assert(limit(c, t) == m);
                    }
                }
                assert(limit(c, (n - 1) as nat) == m);
            }
        } else {
            ip.index[n - 1] += 1;
            proof {
                let c = ip@.index;
                lemma_limit_agree(a, c, (n - 1) as nat);
                assert forall|t: nat| t < c.len() implies c[t as int] <= #[trigger] limit(c, t) by {
                    lemma_limit_agree(a, c, t);
                    assert(a[t as int] <= limit(a, t));
                }
                assert forall|t: nat| 1 <= t < n - 1 implies b@[t as int] == #[trigger] limit(
                    c,
                    t,
                ) by {
                    lemma_limit_agree(a, c, t);
                }
                assert(next_at(a, c, n - 1));
            }
        }
    }
    proof {
        let list = strings(all@);
        assert forall|i: int| 0 <= i && i + 1 < list.len() implies follows(
            #[trigger] list[i],
            list[i + 1],
        ) by {
            assert(follows(all@[i]@.index, all@[i + 1]@.index));
        }
        assert forall|i: int| 0 <= i < list.len() implies (#[trigger] list[i]).len() == n
            && restricted(list[i]) by {
            assert(all@[i]@.index.len() == n);
        }
        lemma_chain_is_all(list, n as nat);
    }
    all
}

/// No restricted growth string occurs twice among the extensions of `p`.
pub proof fn lemma_extensions_once(n: nat, p: Seq<usize>)
    requires
        p.len() <= n <= usize::MAX,
        restricted(p),
    ensures
        extensions(n, p).no_duplicates(),
{
    let all = extensions(n, p);
    assert forall|i: int, j: int| 0 <= i < all.len() && 0 <= j < all.len() && i != j implies all[i]
        != all[j] by {
        if i < j {
            lemma_extensions_sorted(n, p, i, j);
        } else {
            lemma_extensions_sorted(n, p, j, i);
        }
        crate::order::lemma_lex_irreflexive(all[i]);
    }
}

/// Every limit in a string of zeros is `1`, but for the first.
proof fn lemma_zeros_limits(zeros: Seq<usize>, n: nat)
    requires
        zeros == Seq::new(n, |i: int| 0usize),
    ensures
        forall|t: nat| 1 <= t <= n ==> #[trigger] limit(zeros, t) == 1,
{
    assert forall|t: nat| 1 <= t <= n implies #[trigger] limit(zeros, t) == 1 by {
        lemma_zeros_limit(zeros, n, t);
    }
}

proof fn lemma_zeros_limit(zeros: Seq<usize>, n: nat, t: nat)
    requires
        zeros == Seq::new(n, |i: int| 0usize),
        1 <= t <= n,
    ensures
        limit(zeros, t) == 1,
    decreases t,
{
    if t > 1 {
        lemma_zeros_limit(zeros, n, (t - 1) as nat);
    } else {
        assert(limit(zeros, 0) == 0);
    }
}

/// The part numbers of a restricted growth string of length `n` are digits in
/// base `n`.
proof fn lemma_digits(a: Seq<usize>, n: nat)
    requires
        restricted(a),
        a.len() == n,
    ensures
        forall|i: int| 0 <= i < n ==> digit(a, i) < n,
{
    assert forall|i: int| 0 <= i < n implies digit(a, i) < n by {
        lemma_limit_small(a, i as nat);
        assert(a[i] <= limit(a, i as nat));
    }
}

/// The string next after `a` has the greater value.
proof fn lemma_next_greater(a: Seq<usize>, b: Seq<usize>, j: int, n: nat)
    requires
        next_at(a, b, j),
        restricted(a),
        restricted(b),
        a.len() == n,
    ensures
        value(a, n, n) < value(b, n, n),
{
    lemma_digits(a, n);
    lemma_digits(b, n);
    lemma_value_less(a, b, n, j as nat, n);
}

/// What raising element `pivot` and clearing what is behind it makes of `a`.
proof fn lemma_raised(a: Seq<usize>, c: Seq<usize>, pivot: int, m: nat)
    requires
        restricted(a),
        a.len() == c.len(),
        0 < pivot < a.len() - 1,
        a[pivot] < limit(a, pivot as nat),
        forall|t: nat| pivot < t < a.len() ==> a[t as int] == #[trigger] limit(a, t),
        forall|t: int| 0 <= t < pivot ==> c[t] == a[t],
        c[pivot] == a[pivot] + 1,
        forall|t: int| pivot < t < c.len() ==> c[t] == 0,
        m == (if c[pivot] == limit(a, pivot as nat) {
            limit(a, pivot as nat) + 1
        } else {
            limit(a, pivot as nat)
        }),
    ensures
        restricted(c),
        forall|t: nat| pivot < t <= c.len() ==> #[trigger] limit(c, t) == m,
{
    lemma_limit_agree(a, c, pivot as nat);
    assert forall|t: nat| pivot < t <= c.len() implies #[trigger] limit(c, t) == m by {
        lemma_cleared(c, pivot, m, t);
    }
    assert forall|t: nat| t < c.len() implies c[t as int] <= #[trigger] limit(c, t) by {
        if t <= pivot {
            lemma_limit_agree(a, c, t);
            assert(a[t as int] <= limit(a, t));
        }
    }
}

proof fn lemma_cleared(c: Seq<usize>, pivot: int, m: nat, t: nat)
    requires
        0 <= pivot < t <= c.len(),
        forall|s: int| pivot < s < c.len() ==> c[s] == 0,
        m >= 1,
        m == (if c[pivot] + 1 > limit(c, pivot as nat) {
            (c[pivot] + 1) as nat
        } else {
            limit(c, pivot as nat)
        }),
    ensures
        limit(c, t) == m,
    decreases t,
{
    if t > pivot + 1 {
        lemma_cleared(c, pivot, m, (t - 1) as nat);
    }
}

/// The restricted growth strings of length `n` that begin with `p`, in
/// lexicographic order.
pub open spec fn extensions(n: nat, p: Seq<usize>) -> Seq<Seq<usize>>
    decreases n - p.len(), 1nat, 0nat,
{
    if p.len() >= n {
        seq![p]
    } else {
        span(n, p, 0, limit(p, p.len()) + 1)
    }
}

/// The restricted growth strings of length `n` that begin with `p` and go on
/// with a part number from `lo` up to, but not including, `hi`.
pub open spec fn span(n: nat, p: Seq<usize>, lo: nat, hi: nat) -> Seq<Seq<usize>>
    decreases n - p.len(), 0nat, hi - lo,
{
    if p.len() >= n || lo >= hi {
        Seq::empty()
    } else {
        span(n, p, lo, (hi - 1) as nat) + extensions(n, p.push((hi - 1) as usize))
    }
}

/// What a span holds is what its first part number gives and what the rest
/// of the span holds.
pub proof fn lemma_span_first(n: nat, p: Seq<usize>, lo: nat, hi: nat)
    requires
        p.len() < n,
        lo < hi,
    ensures
        span(n, p, lo, hi).to_multiset() == extensions(n, p.push(lo as usize)).to_multiset().add(
            span(n, p, lo + 1, hi).to_multiset(),
        ),
    decreases hi - lo,
{
    broadcast use vstd::multiset::group_multiset_axioms;

    let last = extensions(n, p.push((hi - 1) as usize));
    lemma_multiset_commutative(span(n, p, lo, (hi - 1) as nat), last);
    if lo + 1 == hi {
        assert(span(n, p, lo, lo) =~= Seq::<Seq<usize>>::empty());
        assert(span(n, p, hi, hi) =~= Seq::<Seq<usize>>::empty());
        lemma_empty_multiset();
        assert(span(n, p, lo, hi).to_multiset() =~= last.to_multiset().add(
            Multiset::<Seq<usize>>::empty(),
        ));
    } else {
        lemma_span_first(n, p, lo, (hi - 1) as nat);
        lemma_multiset_commutative(span(n, p, lo + 1, (hi - 1) as nat), last);
        assert(span(n, p, lo, hi).to_multiset() =~= extensions(
            n,
            p.push(lo as usize),
        ).to_multiset().add(span(n, p, lo + 1, hi).to_multiset()));
    }
}

/// An empty sequence holds nothing.
pub proof fn lemma_empty_multiset()
    ensures
        Seq::<Seq<usize>>::empty().to_multiset() == Multiset::<Seq<usize>>::empty(),
{
    Seq::<Seq<usize>>::empty().to_multiset_ensures();
    vstd::multiset::lemma_multiset_empty_len(Seq::<Seq<usize>>::empty().to_multiset());
}

/// What a span holds is what it holds without its last part number and what
/// that part number gives.
pub proof fn lemma_span_last(n: nat, p: Seq<usize>, lo: nat, hi: nat)
    requires
        p.len() < n,
        lo < hi,
    ensures
        span(n, p, lo, hi).to_multiset() == span(n, p, lo, (hi - 1) as nat).to_multiset().add(
            extensions(n, p.push((hi - 1) as usize)).to_multiset(),
        ),
{
    lemma_multiset_commutative(
        span(n, p, lo, (hi - 1) as nat),
        extensions(n, p.push((hi - 1) as usize)),
    );
}

/// When a list has grown at its end, what it holds behind place `base` is
/// what it held there before and what was added.
pub proof fn lemma_grown(before: Seq<Seq<usize>>, after: Seq<Seq<usize>>, base: int)
    requires
        0 <= base <= before.len() <= after.len(),
        after.take(before.len() as int) == before,
    ensures
        after.take(base) == before.take(base),
        after.skip(base).to_multiset() == before.skip(base).to_multiset().add(
            after.skip(before.len() as int).to_multiset(),
        ),
{
    assert(after.take(base) =~= before.take(base)) by {
        assert forall|i: int| 0 <= i < base implies after.take(base)[i] == before.take(base)[i] by {
            assert(after.take(before.len() as int)[i] == before[i]);
        }
    }
    assert(after.skip(base) =~= before.skip(base) + after.skip(before.len() as int)) by {
        assert forall|i: int| 0 <= i < before.len() - base implies after.skip(base)[i]
            == before.skip(base)[i] by {
            assert(after.take(before.len() as int)[i + base] == before[i + base]);
        }
    }
    lemma_multiset_commutative(before.skip(base), after.skip(before.len() as int));
}

/// A string that goes on within its limit has the limit one higher at most.
pub proof fn lemma_limit_push(p: Seq<usize>, x: usize)
    requires
        restricted(p),
        x <= limit(p, p.len()),
    ensures
        restricted(p.push(x)),
        limit(p.push(x), p.len() + 1) == (if x == limit(p, p.len()) {
            limit(p, p.len()) + 1
        } else {
            limit(p, p.len())
        }),
{
    let q = p.push(x);
    lemma_limit_agree(p, q, p.len());
    assert forall|j: nat| j < q.len() implies q[j as int] <= #[trigger] limit(q, j) by {
        lemma_limit_agree(p, q, j);
        if j < p.len() {
            assert(p[j as int] <= limit(p, j));
        }
    }
    lemma_limit_grows(p, 0, p.len());
}

/// Each extension of a restricted growth string is a restricted growth string
/// of length `n` that begins with it.
pub proof fn lemma_extensions_restricted(n: nat, p: Seq<usize>, j: int)
    requires
        restricted(p),
        p.len() <= n,
        0 <= j < extensions(n, p).len(),
    ensures
        restricted(extensions(n, p)[j]),
        extensions(n, p)[j].len() == n,
        extensions(n, p)[j].take(p.len() as int) == p,
    decreases n - p.len(), 1nat, 0nat,
{
    if p.len() >= n {
        assert(p.take(p.len() as int) =~= p);
    } else {
        lemma_span_restricted(n, p, 0, limit(p, p.len()) + 1, j);
    }
}

/// Each string of a span is a restricted growth string of length `n` that
/// begins with `p`.
pub proof fn lemma_span_restricted(n: nat, p: Seq<usize>, lo: nat, hi: nat, j: int)
    requires
        restricted(p),
        p.len() < n,
        hi <= limit(p, p.len()) + 1,
        0 <= j < span(n, p, lo, hi).len(),
    ensures
        restricted(span(n, p, lo, hi)[j]),
        span(n, p, lo, hi)[j].len() == n,
        span(n, p, lo, hi)[j].take(p.len() as int) == p,
    decreases n - p.len(), 0nat, hi - lo,
{
    if lo < hi {
        let before = span(n, p, lo, (hi - 1) as nat);
        if j < before.len() {
            lemma_span_restricted(n, p, lo, (hi - 1) as nat, j);
        } else {
            lemma_limit_small(p, p.len());
            let q = p.push((hi - 1) as usize);
            lemma_limit_push(p, (hi - 1) as usize);
            lemma_extensions_restricted(n, q, j - before.len());
            let e = extensions(n, q)[j - before.len()];
            assert(e.take(p.len() as int) =~= p) by {
                assert forall|i: int| 0 <= i < p.len() implies e[i] == p[i] by {
                    assert(e.take(q.len() as int)[i] == q[i]);
                }
            }
        }
    }
}

/// Every restricted growth string of length `n` is among the extensions of
/// each of its beginnings.
pub proof fn lemma_extensions_complete(n: nat, p: Seq<usize>, a: Seq<usize>)
    requires
        restricted(a),
        a.len() == n,
        p.len() <= n,
        a.take(p.len() as int) == p,
    ensures
        extensions(n, p).contains(a),
    decreases n - p.len(),
{
    if p.len() >= n {
        assert(a.take(n as int) =~= a);
        assert(extensions(n, p)[0] == a);
    } else {
        let k = p.len();
        let x = a[k as int];
        let q = p.push(x);
        assert(a.take((k + 1) as int) =~= q) by {
            assert forall|i: int| 0 <= i < k implies a[i] == p[i] by {
                assert(a.take(k as int)[i] == p[i]);
            }
        }
        lemma_extensions_complete(n, q, a);
        assert(forall|i: int| 0 <= i < k ==> a[i] == p[i]) by {
            assert forall|i: int| 0 <= i < k implies a[i] == p[i] by {
                assert(a.take(k as int)[i] == p[i]);
            }
        }
        lemma_limit_agree(a, p, k);
        assert(a[k as int] <= limit(a, k));
        lemma_span_contains(n, p, 0, limit(p, k) + 1, x as nat, a);
    }
}

/// A span holds what each of its part numbers gives.
pub proof fn lemma_span_contains(
    n: nat,
    p: Seq<usize>,
    lo: nat,
    hi: nat,
    x: nat,
    a: Seq<usize>,
)
    requires
        p.len() < n,
        lo <= x < hi,
        x <= usize::MAX,
        extensions(n, p.push(x as usize)).contains(a),
    ensures
        span(n, p, lo, hi).contains(a),
    decreases hi - lo,
{
    let before = span(n, p, lo, (hi - 1) as nat);
    let last = extensions(n, p.push((hi - 1) as usize));
    if x == hi - 1 {
        let i = choose|i: int| 0 <= i < last.len() && last[i] == a;
        assert(span(n, p, lo, hi)[before.len() + i] == a);
    } else {
        lemma_span_contains(n, p, lo, (hi - 1) as nat, x, a);
        let i = choose|i: int| 0 <= i < before.len() && before[i] == a;
        assert(span(n, p, lo, hi)[i] == a);
    }
}

/// Each extension of `p` has length `n` and begins with `p`.
pub proof fn lemma_extensions_begin(n: nat, p: Seq<usize>, j: int)
    requires
        p.len() <= n <= usize::MAX,
        restricted(p),
        0 <= j < extensions(n, p).len(),
    ensures
        extensions(n, p)[j].len() == n,
        forall|i: int| 0 <= i < p.len() ==> extensions(n, p)[j][i] == p[i],
    decreases n - p.len(), 1nat, 0nat,
{
    if p.len() < n {
        lemma_limit_small(p, p.len());
        lemma_span_begin(n, p, 0, limit(p, p.len()) + 1, j);
    }
}

/// Each string of a span has length `n`, begins with `p` and goes on with a
/// part number of the span.
pub proof fn lemma_span_begin(n: nat, p: Seq<usize>, lo: nat, hi: nat, j: int)
    requires
        p.len() < n <= usize::MAX,
        restricted(p),
        hi <= limit(p, p.len()) + 1,
        0 <= j < span(n, p, lo, hi).len(),
    ensures
        span(n, p, lo, hi)[j].len() == n,
        forall|i: int| 0 <= i < p.len() ==> span(n, p, lo, hi)[j][i] == p[i],
        lo <= span(n, p, lo, hi)[j][p.len() as int] < hi,
    decreases n - p.len(), 0nat, hi - lo,
{
    if lo < hi {
        let before = span(n, p, lo, (hi - 1) as nat);
        if j < before.len() {
            lemma_span_begin(n, p, lo, (hi - 1) as nat, j);
        } else {
            let q = p.push((hi - 1) as usize);
            lemma_limit_small(p, p.len());
            lemma_limit_push(p, (hi - 1) as usize);
            lemma_extensions_begin(n, q, j - before.len());
            let e = extensions(n, q)[j - before.len()];
            assert forall|i: int| 0 <= i < p.len() implies e[i] == p[i] by {
                assert(q[i] == p[i]);
            }
            assert(e[p.len() as int] == q[p.len() as int]);
        }
    }
}

/// The extensions of `p` stand in lexicographic order, so that none occurs
/// twice.
pub proof fn lemma_extensions_sorted(n: nat, p: Seq<usize>, i: int, j: int)
    requires
        p.len() <= n <= usize::MAX,
        restricted(p),
        0 <= i < j < extensions(n, p).len(),
    ensures
        lex_less(extensions(n, p)[i], extensions(n, p)[j]),
    decreases n - p.len(), 1nat, 0nat,
{
    if p.len() < n {
        lemma_limit_small(p, p.len());
        lemma_span_sorted(n, p, 0, limit(p, p.len()) + 1, i, j);
    }
}

/// The strings of a span stand in lexicographic order.
pub proof fn lemma_span_sorted(n: nat, p: Seq<usize>, lo: nat, hi: nat, i: int, j: int)
    requires
        p.len() < n <= usize::MAX,
        restricted(p),
        hi <= limit(p, p.len()) + 1,
        0 <= i < j < span(n, p, lo, hi).len(),
    ensures
        lex_less(span(n, p, lo, hi)[i], span(n, p, lo, hi)[j]),
    decreases n - p.len(), 0nat, hi - lo,
{
    if lo < hi {
        let before = span(n, p, lo, (hi - 1) as nat);
        let q = p.push((hi - 1) as usize);
        lemma_limit_small(p, p.len());
        lemma_limit_push(p, (hi - 1) as usize);
        if j < before.len() {
            lemma_span_sorted(n, p, lo, (hi - 1) as nat, i, j);
        } else if i >= before.len() {
            lemma_limit_push(p, (hi - 1) as usize);
            lemma_extensions_sorted(n, q, i - before.len(), j - before.len());
        } else {
            let a = span(n, p, lo, hi)[i];
            let b = span(n, p, lo, hi)[j];
            lemma_span_begin(n, p, lo, (hi - 1) as nat, i);
            lemma_extensions_begin(n, q, j - before.len());
            assert(b[p.len() as int] == q[p.len() as int]);
            assert forall|t: int| 0 <= t < p.len() implies a[t] == b[t] by {
                assert(q[t] == p[t]);
            }
            assert(less_at(a, b, p.len() as int));
        }
    }
}

/// Nothing of the same length comes after a string whose elements are all at
/// their limits, among restricted growth strings.
pub proof fn lemma_maxed_is_last(a: Seq<usize>, c: Seq<usize>, from: int)
    requires
        restricted(c),
        a.len() == c.len(),
        0 <= from,
        maxed_from(a, from),
        forall|t: int| 0 <= t < from && t < a.len() ==> a[t] == c[t],
    ensures
        !lex_less(a, c),
{
    if lex_less(a, c) {
        let d = choose|d: int| less_at(a, c, d);
        assert(d >= from) by {
            if d < from {
                assert(a[d] == c[d]);
            }
        }
        lemma_limit_agree(a, c, d as nat);
        assert(a[d] == limit(a, d as nat));
        assert(c[d] <= limit(c, d as nat));
    }
}

/// No restricted growth string lies between a string and the one next after
/// it.
pub proof fn lemma_next_is_close(a: Seq<usize>, b: Seq<usize>, c: Seq<usize>)
    requires
        follows(a, b),
        restricted(c),
        c.len() == a.len(),
        lex_less(a, c),
    ensures
        c == b || lex_less(b, c),
{
    let j = choose|j: int| next_at(a, b, j);
    let d = choose|d: int| less_at(a, c, d);
    if d < j {
        assert(less_at(b, c, d)) by {
            assert forall|i: int| 0 <= i < d implies b[i] == c[i] by {
                assert(a[i] == b[i]);
            }
            assert(a[d] == b[d]);
        }
    } else if d > j {
        assert(maxed_from(a, j + 1)) by {
            assert forall|t: nat| j + 1 <= t < a.len() implies a[t as int] == #[trigger] limit(
                a,
                t,
            ) by {}
        }
        lemma_maxed_is_last(a, c, j + 1);
    } else {
        assert(c[j] >= b[j]);
        if c[j] > b[j] {
            assert(less_at(b, c, j)) by {
                assert forall|i: int| 0 <= i < j implies b[i] == c[i] by {
                    assert(a[i] == b[i]);
                }
            }
        } else if c != b {
            assert forall|t: int| 0 <= t < j + 1 && t < b.len() implies b[t] == c[t] by {
                if t < j {
                    assert(a[t] == b[t]);
                    assert(a[t] == c[t]);
                }
            }
            assert forall|t: nat| j + 1 <= t < b.len() implies b[t as int] == 0 by {
                assert(a[t as int] == limit(a, t));
            }
            lemma_zero_tail_first(b, c, j + 1);
        }
    }
}

/// A string that is `0` from some place on comes before every other string
/// of its length that agrees with it before that place.
proof fn lemma_zero_tail_first(b: Seq<usize>, c: Seq<usize>, from: int)
    requires
        b.len() == c.len(),
        0 <= from,
        forall|t: int| 0 <= t < from && t < b.len() ==> b[t] == c[t],
        forall|t: nat| from <= t < b.len() ==> b[t as int] == 0,
        b != c,
    ensures
        lex_less(b, c),
    decreases b.len() - from,
{
    if from >= b.len() {
        assert(b =~= c);
    } else if c[from] > 0 {
        assert(b[from] == 0) by {
            assert(b[(from as nat) as int] == 0);
        }
        assert(less_at(b, c, from));
    } else {
        assert(b[from] == 0) by {
            assert(b[(from as nat) as int] == 0);
        }
        lemma_zero_tail_first(b, c, from + 1);
    }
}

/// A list of restricted growth strings of length `n` that starts with the
/// string of zeros, goes from each string to the one next after it, and ends
/// with the string that is at its limits throughout, is the list of all
/// restricted growth strings of length `n` in lexicographic order.
pub proof fn lemma_chain_is_all(list: Seq<Seq<usize>>, n: nat)
    requires
        1 <= n <= usize::MAX,
        list.len() >= 1,
        forall|i: int| 0 <= i < list.len() ==> (#[trigger] list[i]).len() == n && restricted(list[i]),
        list[0] == Seq::new(n, |i: int| 0usize),
        maxed_from(list[list.len() - 1], 0),
        forall|i: int| 0 <= i && i + 1 < list.len() ==> follows(#[trigger] list[i], list[i + 1]),
    ensures
        list == extensions(n, Seq::empty()),
{
    let all = extensions(n, Seq::empty());
    let none = Seq::<usize>::empty();
    assert(restricted(none));
    assert forall|i: int| 0 <= i < list.len() implies i < all.len() && all[i] == #[trigger] list[i] by {
        lemma_chain_in_place(list, n, i);
    }
    if all.len() > list.len() {
        let last = list.len() - 1;
        lemma_chain_in_place(list, n, last);
        lemma_extensions_sorted(n, none, last, list.len() as int);
        lemma_extensions_restricted(n, none, list.len() as int);
        lemma_maxed_is_last(list[last], all[list.len() as int], 0);
    }
    assert(list =~= all);
}

/// The string at place `i` of such a list is the string at place `i` of the
/// list of all strings.
proof fn lemma_chain_in_place(list: Seq<Seq<usize>>, n: nat, i: int)
    requires
        1 <= n <= usize::MAX,
        list.len() >= 1,
        forall|i: int| 0 <= i < list.len() ==> (#[trigger] list[i]).len() == n && restricted(list[i]),
        list[0] == Seq::new(n, |i: int| 0usize),
        forall|i: int| 0 <= i && i + 1 < list.len() ==> follows(#[trigger] list[i], list[i + 1]),
        0 <= i < list.len(),
    ensures
        i < extensions(n, Seq::empty()).len(),
        extensions(n, Seq::empty())[i] == list[i],
    decreases i,
{
    let all = extensions(n, Seq::empty());
    let none = Seq::<usize>::empty();
    assert(restricted(none));
    let c = list[i];
    assert(c.take(0) =~= none);
    lemma_extensions_complete(n, none, c);
    let z = choose|z: int| 0 <= z < all.len() && all[z] == c;
    if i == 0 {
        if z > 0 {
            lemma_extensions_sorted(n, none, 0, z);
            lemma_extensions_begin(n, none, 0);
            let d = choose|d: int| less_at(all[0], c, d);
            assert(c[d] == 0);
        }
    } else {
        lemma_chain_in_place(list, n, i - 1);
        let a = list[i - 1];
        assert(follows(a, c));
        let j = choose|j: int| next_at(a, c, j);
        assert(less_at(a, c, j));
        if z < i - 1 {
            lemma_extensions_sorted(n, none, z, i - 1);
            lemma_lex_transitive(c, a, c);
        } else if z == i - 1 {
        } else if z > i {
            lemma_extensions_sorted(n, none, i - 1, i);
            lemma_extensions_sorted(n, none, i, z);
            lemma_extensions_restricted(n, none, i);
            lemma_next_is_close(a, c, all[i]);
            if all[i] != c {
                lemma_lex_transitive(c, all[i], c);
            }
        }
    }
}

} // verus!
