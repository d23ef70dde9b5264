//! The states that the making of partitions block by block passes through,
//! and what is gathered from a state: the partitions that begin with its
//! blocks, in the order of visiting.

use crate::encoding::{code_ok, lemma_encode_last, lemma_encode_ok, stacked};
use crate::laws::{lemma_encode_injective, sorted_and_complete};
use crate::order::{agree, lemma_no_longer_code};
use crate::partition::{
    ascending, canonical, encode, is_partition_from_zero, less_at, placed, placed_before, precedes,
};
use crate::search::{grow, lemma_encode_elements, lemma_encode_grow};
use vstd::prelude::*;

verus! {

/// How many of the first `k` elements are free.
pub open spec fn free_count(taken: Seq<bool>, k: nat) -> nat
    decreases k,
{
    if k == 0 {
        0
    } else {
        free_count(taken, (k - 1) as nat) + (if taken[k - 1] {
            0nat
        } else {
            1nat
        })
    }
}

/// A state on the way to a partition: the blocks made so far hold the
/// elements that are marked as taken, and `free` elements are left.
pub closed spec fn building(p: Seq<Seq<usize>>, taken: Seq<bool>, n: nat, free: nat) -> bool {
    &&& taken.len() == n
    &&& forall|i: int| 0 <= i < p.len() ==> (#[trigger] p[i]).len() > 0 && ascending(p[i])
    &&& forall|i: int, j: int| 0 <= i < p.len() && 0 <= j < p[i].len() ==> #[trigger] p[i][j] < n
    &&& forall|i: int, j: int, k: int, l: int|
        0 <= i < p.len() && 0 <= j < p[i].len() && 0 <= k < p.len() && 0 <= l < p[k].len()
            && #[trigger] p[i][j] == #[trigger] p[k][l] ==> i == k && j == l
    &&& forall|v: usize| v < n ==> (#[trigger] taken[v as int] <==> placed(p, v))
    &&& free == free_count(taken, n)
    &&& forall|i: int, v: usize|
        0 <= i < p.len() && v < p[i][0] ==> #[trigger] placed_before(p, i, v)
}

pub proof fn lemma_free_count_agree(a: Seq<bool>, b: Seq<bool>, k: nat)
    requires
        forall|i: int| 0 <= i < k ==> a[i] == b[i],
    ensures
        free_count(a, k) == free_count(b, k),
    decreases k,
{
    if k > 0 {
        lemma_free_count_agree(a, b, (k - 1) as nat);
    }
}

/// Taking a free element leaves one free element less.
pub proof fn lemma_free_count_take(taken: Seq<bool>, i: int, k: nat)
    requires
        0 <= i < taken.len(),
        !taken[i],
        k <= taken.len(),
    ensures
        free_count(taken.update(i, true), k) + (if i < k {
            1nat
        } else {
            0nat
        }) == free_count(taken, k),
    decreases k,
{
    if k > 0 {
        lemma_free_count_take(taken, i, (k - 1) as nat);
    }
}

/// Where all elements below `s` are taken and some element is free, a free
/// element stands at `s` or behind it.
pub proof fn lemma_free_exists(taken: Seq<bool>, s: nat, k: nat)
    requires
        forall|i: int| 0 <= i < s ==> taken[i],
        free_count(taken, k) > 0,
    ensures
        exists|i: int| s <= i < k && !taken[i],
    decreases k,
{
    if k > 0 {
        if !taken[k - 1] {
            assert(s <= k - 1 < k && !taken[k - 1]);
        } else {
            lemma_free_exists(taken, s, (k - 1) as nat);
            let i = choose|i: int| s <= i < k - 1 && !taken[i];
            assert(s <= i < k && !taken[i]);
        }
    }
}

/// Where no element is free, all are taken.
pub proof fn lemma_none_free(taken: Seq<bool>, k: nat, i: int)
    requires
        free_count(taken, k) == 0,
        0 <= i < k,
    ensures
        taken[i],
    decreases k,
{
    if i < k - 1 {
        lemma_none_free(taken, (k - 1) as nat, i);
    }
}

/// With nothing free the blocks are a partition.
pub proof fn lemma_built(p: Seq<Seq<usize>>, taken: Seq<bool>, n: nat)
    requires
        building(p, taken, n, 0),
    ensures
        is_partition_from_zero(p, n),
{
    assert forall|v: usize| v < n implies placed(p, v) by {
        lemma_none_free(taken, n, v as int);
        assert(taken[v as int]);
    }
}

/// What the state holds of a free element and of the last block.
pub proof fn lemma_building_facts(p: Seq<Seq<usize>>, taken: Seq<bool>, n: nat, free: nat)
    requires
        building(p, taken, n, free),
    ensures
        taken.len() == n,
        free == free_count(taken, n),
        p.len() > 0 ==> p.last().len() > 0 && p.last().last() < n && taken[p.last().last() as int],
{
    if p.len() > 0 {
        let last = p.len() - 1;
        assert(p.last() == p[last]);
        let x = p[last][p[last].len() - 1];
        assert(x < n);
        assert(placed(p, x));
    }
}

/// Opening a block with a free element.
pub proof fn lemma_open_block(p: Seq<Seq<usize>>, taken: Seq<bool>, n: nat, free: nat, x: usize)
    requires
        building(p, taken, n, free),
        x < n,
        !taken[x as int],
        forall|v: int| 0 <= v < x ==> taken[v],
    ensures
        free >= 1,
        building(p.push(seq![x]), taken.update(x as int, true), n, (free - 1) as nat),
{
    let q = p.push(seq![x]);
    let t = taken.update(x as int, true);
    lemma_free_count_take(taken, x as int, n);
    assert forall|i: int, v: usize| 0 <= i < q.len() && v < q[i][0] implies #[trigger] placed_before(
        q,
        i,
        v,
    ) by {
        if i < p.len() {
            assert(q[i] == p[i]);
            assert(placed_before(p, i, v));
            let (a, b) = choose|a: int, b: int|
                0 <= a < i && a < p.len() && 0 <= b < p[a].len() && p[a][b] == v;
            assert(q[a] == p[a]);
            assert(q[a][b] == v);
        } else {
            assert(q[i] == seq![x]);
            assert(taken[v as int]);
            assert(placed(p, v));
            let (a, b) = choose|a: int, b: int|
                0 <= a < p.len() && a < p.len() && 0 <= b < p[a].len() && p[a][b] == v;
            assert(q[a] == p[a]);
            assert(q[a][b] == v);
        }
    }
    assert(forall|i: int| 0 <= i < p.len() ==> q[i] == p[i]);
    assert(q[p.len() as int] == seq![x]);
    assert(!placed(p, x));
    assert forall|i: int, j: int, k: int, l: int|
        0 <= i < q.len() && 0 <= j < q[i].len() && 0 <= k < q.len() && 0 <= l < q[k].len()
            && #[trigger] q[i][j] == #[trigger] q[k][l] implies i == k && j == l by {
        if i < p.len() && k < p.len() {
            assert(p[i][j] == p[k][l]);
        } else if i < p.len() {
            assert(p[i][j] == x);
        } else if k < p.len() {
            assert(p[k][l] == x);
        }
    }
    assert forall|v: usize| v < n implies (#[trigger] t[v as int] <==> placed(q, v)) by {
        if v == x {
            assert(q[p.len() as int][0] == x);
        } else {
            assert(taken[v as int] <==> placed(p, v));
            if placed(p, v) {
                let (a, b) = choose|a: int, b: int|
                    0 <= a < p.len() && a < p.len() && 0 <= b < p[a].len() && p[a][b] == v;
                assert(q[a][b] == v);
            }
            if placed(q, v) {
                let (a, b) = choose|a: int, b: int|
                    0 <= a < q.len() && a < q.len() && 0 <= b < q[a].len() && q[a][b] == v;
                assert(p[a][b] == v);
            }
        }
    }
}

/// Putting a free element that is greater than the last element of the last
/// block at the end of that block.
pub proof fn lemma_join(p: Seq<Seq<usize>>, taken: Seq<bool>, n: nat, free: nat, x: usize)
    requires
        building(p, taken, n, free),
        p.len() > 0,
        x < n,
        !taken[x as int],
        x > p.last().last(),
    ensures
        free >= 1,
        building(grow(p, x), taken.update(x as int, true), n, (free - 1) as nat),
{
    let q = grow(p, x);
    let t = taken.update(x as int, true);
    let last = p.len() - 1;
    let m = p[last].len() as int;
    lemma_free_count_take(taken, x as int, n);
    assert forall|i: int, v: usize| 0 <= i < q.len() && v < q[i][0] implies #[trigger] placed_before(
        q,
        i,
        v,
    ) by {
        assert(p[i].len() > 0);
        assert(q[i][0] == p[i][0]);
        assert(placed_before(p, i, v));
        let (a, b) = choose|a: int, b: int|
            0 <= a < i && a < p.len() && 0 <= b < p[a].len() && p[a][b] == v;
        assert(q[a] == p[a]);
        assert(q[a][b] == v);
    }
    assert(forall|i: int| 0 <= i < last ==> q[i] == p[i]);
    assert(forall|j: int| 0 <= j < m ==> q[last][j] == p[last][j]);
    assert(q[last][m] == x);
    assert(!placed(p, x));
    assert forall|i: int| 0 <= i < q.len() implies (#[trigger] q[i]).len() > 0 && ascending(
        q[i],
    ) by {
        assert(p[i].len() > 0 && ascending(p[i]));
        if i == last {
            assert forall|a: int, b: int| 0 <= a < b < q[i].len() implies q[i][a] < q[i][b] by {
                if b == m {
                    assert(p[last][a] <= p[last][m - 1]);
                }
            }
        }
    }
    assert forall|i: int, j: int| 0 <= i < q.len() && 0 <= j < q[i].len() implies #[trigger] q[i][j]
        < n by {
        if !(i == last && j == m) {
            assert(q[i][j] == p[i][j]);
        }
    }
    assert forall|i: int, j: int, k: int, l: int|
        0 <= i < q.len() && 0 <= j < q[i].len() && 0 <= k < q.len() && 0 <= l < q[k].len()
            && #[trigger] q[i][j] == #[trigger] q[k][l] implies i == k && j == l by {
        if i == last && j == m {
            if !(k == last && l == m) {
                assert(p[k][l] == x);
            }
        } else if k == last && l == m {
            assert(p[i][j] == x);
        } else {
            assert(p[i][j] == p[k][l]);
        }
    }
    assert forall|v: usize| v < n implies (#[trigger] t[v as int] <==> placed(q, v)) by {
        if v == x {
            assert(q[last][m] == x);
        } else {
            assert(taken[v as int] <==> placed(p, v));
            if placed(p, v) {
                let (a, b) = choose|a: int, b: int|
                    0 <= a < p.len() && a < p.len() && 0 <= b < p[a].len() && p[a][b] == v;
                assert(q[a][b] == v);
            }
            if placed(q, v) {
                let (a, b) = choose|a: int, b: int|
                    0 <= a < q.len() && a < q.len() && 0 <= b < q[a].len() && q[a][b] == v;
                assert(p[a][b] == v);
            }
        }
    }
}

/// The blocks of `p` with every element greater by one, so that they hold
/// numbers from `1` on.
pub open spec fn raised(p: Seq<Seq<usize>>) -> Seq<Seq<usize>> {
    Seq::new(p.len(), |i: int| Seq::new(p[i].len(), |j: int| (p[i][j] + 1) as usize))
}

/// What is written for the raised blocks of `p`.
pub open spec fn code(p: Seq<Seq<usize>>) -> Seq<usize> {
    encode(raised(p))
}

/// The raised blocks of each entry of `outs`.
pub open spec fn raised_all(outs: Seq<Seq<Seq<usize>>>) -> Seq<Seq<Seq<usize>>> {
    Seq::new(outs.len(), |i: int| raised(outs[i]))
}

/// What the raised blocks of a state are like.
pub proof fn lemma_raised(p: Seq<Seq<usize>>, taken: Seq<bool>, n: nat, free: nat)
    requires
        building(p, taken, n, free),
        n <= usize::MAX,
    ensures
        stacked(raised(p)),
        forall|i: int, j: int|
            0 <= i < p.len() && 0 <= j < p[i].len() ==> 1 <= #[trigger] raised(p)[i][j] <= n,
        forall|v: usize| v < n ==> (placed(raised(p), (v + 1) as usize) <==> #[trigger] taken[v as int]),
{
    let r = raised(p);
    assert forall|i: int| 0 <= i < r.len() implies ascending(#[trigger] r[i]) by {
        assert(ascending(p[i]));
        assert forall|a: int, b: int| 0 <= a < b < r[i].len() implies r[i][a] < r[i][b] by {
            assert(p[i][a] < p[i][b]);
            assert(p[i][b] < n);
        }
    }
    assert forall|i: int, j: int| 0 <= i < r.len() && 0 <= j < r[i].len() implies 1
        <= #[trigger] r[i][j] <= n by {
        assert(p[i][j] < n);
    }
    assert forall|i: int, j: int, k: int, l: int|
        0 <= i < r.len() && 0 <= j < r[i].len() && 0 <= k < r.len() && 0 <= l < r[k].len()
            && #[trigger] r[i][j] == #[trigger] r[k][l] implies i == k && j == l by {
        assert(p[i][j] < n && p[k][l] < n);
        assert(p[i][j] == p[k][l]);
    }
    assert forall|i: int, v: usize|
        0 <= i < r.len() && r[i].len() > 0 && 1 <= v < r[i][0] implies #[trigger] placed_before(
        r,
        i,
        v,
    ) by {
        assert(p[i].len() > 0);
        assert(p[i][0] < n);
        let u = (v - 1) as usize;
        assert(placed_before(p, i, u));
        let (a, b) = choose|a: int, b: int|
            0 <= a < i && a < p.len() && 0 <= b < p[a].len() && p[a][b] == u;
        assert(r[a][b] == v);
    }
    assert forall|i: int| 0 <= i < r.len() implies (#[trigger] r[i]).len() > 0 by {
        assert(p[i].len() > 0);
    }
    assert forall|v: usize| v < n implies (placed(r, (v + 1) as usize) <==> #[trigger] taken[v as int]) by {
        assert(taken[v as int] <==> placed(p, v));
        if placed(p, v) {
            let (a, b) = choose|a: int, b: int|
                0 <= a < p.len() && a < p.len() && 0 <= b < p[a].len() && p[a][b] == v;
            assert(r[a][b] == (v + 1) as usize);
        }
        if placed(r, (v + 1) as usize) {
            let (a, b) = choose|a: int, b: int|
                0 <= a < r.len() && a < r.len() && 0 <= b < r[a].len() && r[a][b] == (v + 1) as usize;
            assert(p[a][b] < n);
            assert(p[a][b] == v);
        }
    }
}

/// With nothing free the raised blocks are a partition of `{1, ..., n}` in
/// the order of their least elements.
pub proof fn lemma_raised_canonical(p: Seq<Seq<usize>>, taken: Seq<bool>, n: nat)
    requires
        building(p, taken, n, 0),
        n <= usize::MAX,
    ensures
        canonical(raised(p), n),
{
    let r = raised(p);
    lemma_raised(p, taken, n, 0);
    assert forall|v: usize| 1 <= v <= n implies placed(r, v) by {
        let u = (v - 1) as usize;
        lemma_none_free(taken, n, u as int);
        assert(taken[u as int]);
        assert(placed(r, (u + 1) as usize));
    }
    assert forall|i: int, k: int| 0 <= i < k < r.len() implies (#[trigger] r[i])[0] < (
    #[trigger] r[k])[0] by {
        let x = r[k][0];
        if x < r[i][0] {
            assert(placed_before(r, i, x));
            let (a, b) = choose|a: int, b: int|
                0 <= a < i && a < r.len() && 0 <= b < r[a].len() && r[a][b] == x;
            assert(r[a][b] == r[k][0]);
        }
        if x == r[i][0] {
            assert(r[i][0] == r[k][0]);
        }
    }
}

/// What is written for a state holds an element exactly if it is taken.
pub proof fn lemma_code_holds(p: Seq<Seq<usize>>, taken: Seq<bool>, n: nat, free: nat, v: usize)
    requires
        building(p, taken, n, free),
        n <= usize::MAX,
        v < n,
    ensures
        code(p).contains((v + 1) as usize) <==> taken[v as int],
{
    let r = raised(p);
    lemma_raised(p, taken, n, free);
    lemma_encode_elements(r);
    assert(placed(r, (v + 1) as usize) <==> taken[v as int]);
    if placed(r, (v + 1) as usize) {
        let (a, b) = choose|a: int, b: int|
            0 <= a < r.len() && a < r.len() && 0 <= b < r[a].len() && r[a][b] == (v + 1) as usize;
        assert(encode(r).contains(r[a][b]));
    }
    if code(p).contains((v + 1) as usize) {
        let t = choose|t: int| 0 <= t < code(p).len() && code(p)[t] == (v + 1) as usize;
        assert(encode(r)[t] != 0);
        assert(placed(r, encode(r)[t]));
    }
}

/// What is written for a state with one more block, and with one more
/// element in its last block.
pub proof fn lemma_code_steps(p: Seq<Seq<usize>>, x: usize)
    requires
        x < usize::MAX,
    ensures
        code(p.push(seq![x])) == code(p).push(0).push((x + 1) as usize),
        p.len() > 0 ==> code(grow(p, x)) == code(p).push((x + 1) as usize),
{
    let q = p.push(seq![x]);
    assert(raised(q).drop_last() =~= raised(p));
    assert(raised(q).last() =~= seq![(x + 1) as usize]);
    lemma_encode_last(raised(q));
    assert(code(q) =~= code(p).push(0).push((x + 1) as usize));
    if p.len() > 0 {
        assert(raised(grow(p, x)) =~= grow(raised(p), (x + 1) as usize)) by {
            let a = raised(grow(p, x));
            let b = grow(raised(p), (x + 1) as usize);
            assert(a.len() == b.len());
            assert forall|i: int| 0 <= i < a.len() implies a[i] =~= b[i] by {}
        }
        lemma_encode_grow(raised(p), (x + 1) as usize);
    }
}

/// A code that begins with what is written for a state with free elements
/// goes on behind it.
pub proof fn lemma_code_longer(
    p: Seq<Seq<usize>>,
    taken: Seq<bool>,
    n: nat,
    free: nat,
    w: Seq<usize>,
)
    requires
        building(p, taken, n, free),
        n <= usize::MAX,
        free > 0,
        code_ok(w, n),
        agree(code(p), w, code(p).len() as int),
    ensures
        w.len() > code(p).len(),
{
    lemma_free_exists(taken, 0, n);
    let v = choose|v: int| 0 <= v < n && !taken[v];
    let c = (v + 1) as usize;
    assert(w.contains(c));
    let f = choose|f: int| 0 <= f < w.len() && w[f] == c;
    if f < code(p).len() {
        assert(code(p)[f] == c);
        lemma_code_holds(p, taken, n, free, v as usize);
    }
}

/// A code that begins with what is written for a state with nothing free is
/// what is written for that state.
pub proof fn lemma_code_full(p: Seq<Seq<usize>>, taken: Seq<bool>, n: nat, w: Seq<usize>)
    requires
        building(p, taken, n, 0),
        n <= usize::MAX,
        code_ok(w, n),
        agree(code(p), w, code(p).len() as int),
    ensures
        w == code(p),
{
    lemma_raised_canonical(p, taken, n);
    lemma_encode_ok(raised(p), n);
    lemma_no_longer_code(code(p), w, n);
}

/// Where a code that begins with what is written for a state opens a new
/// block behind it, that block starts with the least free element.
pub proof fn lemma_code_head(
    p: Seq<Seq<usize>>,
    taken: Seq<bool>,
    n: nat,
    free: nat,
    w: Seq<usize>,
    start: usize,
)
    requires
        building(p, taken, n, free),
        n <= usize::MAX,
        free > 0,
        start < n,
        !taken[start as int],
        forall|v: int| 0 <= v < start ==> taken[v],
        code_ok(w, n),
        agree(code(p), w, code(p).len() as int),
        w.len() > code(p).len(),
        p.len() == 0 || w[code(p).len() as int] == 0,
    ensures
        agree(code(p.push(seq![start])), w, (code(p).len() + 2) as int),
{
    let u = code(p);
    let k = u.len() as int;
    lemma_building_facts(p, taken, n, free);
    lemma_code_steps(p, start);
    if p.len() == 0 {
        assert(raised(p) =~= Seq::<Seq<usize>>::empty());
        assert(k == 0);
        assert(w[0] == 0);
    }
    assert(w[k] == 0);
    assert(k + 1 < w.len());
    let c = w[k + 1];
    assert(c != 0);
    let goal = (start + 1) as usize;
    assert(w.contains(goal));
    let f = choose|f: int| 0 <= f < w.len() && w[f] == goal;
    if f < k {
        assert(u[f] == goal);
        lemma_code_holds(p, taken, n, free, start);
    }
    if f > k + 1 {
        assert(w[k + 1] < w[f]);
        let below = (c - 1) as usize;
        assert(taken[below as int]);
        lemma_code_holds(p, taken, n, free, below);
        let s = choose|s: int| 0 <= s < u.len() && u[s] == c;
        assert(w[s] == w[k + 1]);
    }
    let uc = code(p.push(seq![start]));
    assert forall|i: int| 0 <= i < k + 2 implies uc[i] == w[i] by {
        if i < k {
            assert(u[i] == w[i]);
        }
    }
}

/// How a code goes on behind what is written for a state whose last block is
/// still open: with a separator, or with a free element that is greater than
/// the last element of that block.
pub proof fn lemma_code_next(
    p: Seq<Seq<usize>>,
    taken: Seq<bool>,
    n: nat,
    free: nat,
    w: Seq<usize>,
)
    requires
        building(p, taken, n, free),
        n <= usize::MAX,
        p.len() > 0,
        code_ok(w, n),
        agree(code(p), w, code(p).len() as int),
        w.len() > code(p).len(),
    ensures
        w[code(p).len() as int] == 0 || (p.last().last() + 1 < w[code(p).len() as int] <= n
            && !taken[w[code(p).len() as int] - 1]),
{
    let u = code(p);
    let k = u.len() as int;
    let s = w[k];
    lemma_building_facts(p, taken, n, free);
    lemma_encode_last(raised(p));
    assert(raised(p).last() == raised(p)[p.len() - 1]);
    assert(p.last() == p[p.len() - 1]);
    let shown = (p.last().last() + 1) as usize;
    assert(u[k - 1] == raised(p).last()[p.last().len() - 1]);
    assert(u[k - 1] == shown);
    if s != 0 {
        assert(w[k - 1] == u[k - 1]);
        assert(w[k - 1] < w[k]);
        assert(s <= n);
        let below = (s - 1) as usize;
        if taken[below as int] {
            lemma_code_holds(p, taken, n, free, below);
            let t = choose|t: int| 0 <= t < u.len() && u[t] == s;
            assert(w[t] == w[k]);
        }
    }
}

/// Whether all elements of `p` are below `n`.
pub open spec fn below(p: Seq<Seq<usize>>, n: nat) -> bool {
    forall|i: int, j: int| 0 <= i < p.len() && 0 <= j < p[i].len() ==> #[trigger] p[i][j] < n
}

/// What has been gathered into `outs` from place `from` up to place `to`: the
/// partitions that begin with `u` and go on behind it with a symbol below
/// `upto`, each once and in the order of visiting.
pub closed spec fn covered(
    outs: Seq<Seq<Seq<usize>>>,
    from: int,
    to: int,
    u: Seq<usize>,
    n: nat,
    upto: nat,
) -> bool {
    &&& 0 <= from <= to <= outs.len()
    &&& forall|i: int|
        from <= i < to ==> canonical(raised(#[trigger] outs[i]), n) && below(outs[i], n) && agree(
            u,
            code(outs[i]),
            u.len() as int,
        ) && (code(outs[i]).len() > u.len() ==> code(outs[i])[u.len() as int] < upto)
    &&& forall|i: int, j: int|
        from <= i < j < to ==> precedes(raised(#[trigger] outs[i]), raised(#[trigger] outs[j]))
    &&& forall|q: Seq<Seq<usize>>|
        #[trigger] canonical(q, n) && agree(u, encode(q), u.len() as int) && (encode(q).len()
            > u.len() ==> encode(q)[u.len() as int] < upto) ==> exists|i: int|
            from <= i < to && raised(#[trigger] outs[i]) == q
}

/// What was gathered stays gathered when more is put behind it.
pub proof fn lemma_covered_keep(
    outs: Seq<Seq<Seq<usize>>>,
    more: Seq<Seq<Seq<usize>>>,
    from: int,
    to: int,
    u: Seq<usize>,
    n: nat,
    upto: nat,
)
    requires
        covered(outs, from, to, u, n, upto),
        to <= more.len(),
        forall|i: int| 0 <= i < to ==> more[i] == outs[i],
    ensures
        covered(more, from, to, u, n, upto),
{
    assert forall|q: Seq<Seq<usize>>|
        #[trigger] canonical(q, n) && agree(u, encode(q), u.len() as int) && (encode(q).len()
            > u.len() ==> encode(q)[u.len() as int] < upto) implies exists|i: int|
        from <= i < to && raised(#[trigger] more[i]) == q by {
        let i = choose|i: int| from <= i < to && raised(#[trigger] outs[i]) == q;
        assert(more[i] == outs[i]);
    }
}

/// A state with nothing free gives its own blocks, and nothing else.
pub proof fn lemma_covered_leaf(
    outs: Seq<Seq<Seq<usize>>>,
    from: int,
    p: Seq<Seq<usize>>,
    taken: Seq<bool>,
    n: nat,
    upto: nat,
)
    requires
        building(p, taken, n, 0),
        n <= usize::MAX,
        0 <= from,
        outs.len() == from + 1,
        outs[from] == p,
    ensures
        covered(outs, from, from + 1, code(p), n, upto),
{
    let u = code(p);
    lemma_raised_canonical(p, taken, n);
    lemma_built(p, taken, n);
    assert(below(p, n));
    assert forall|q: Seq<Seq<usize>>|
        #[trigger] canonical(q, n) && agree(u, encode(q), u.len() as int) && (encode(q).len()
            > u.len() ==> encode(q)[u.len() as int] < upto) implies exists|i: int|
        from <= i < from + 1 && raised(#[trigger] outs[i]) == q by {
        lemma_encode_ok(q, n);
        lemma_code_full(p, taken, n, encode(q));
        lemma_encode_injective(q, raised(p));
        assert(raised(outs[from]) == q);
    }
}

/// What the state with a new block for the least free element gives is what
/// the state gives behind a separator.
pub proof fn lemma_covered_head(
    outs: Seq<Seq<Seq<usize>>>,
    from: int,
    to: int,
    p: Seq<Seq<usize>>,
    taken: Seq<bool>,
    n: nat,
    free: nat,
    start: usize,
)
    requires
        building(p, taken, n, free),
        n <= usize::MAX,
        free > 0,
        start < n,
        !taken[start as int],
        forall|v: int| 0 <= v < start ==> taken[v],
        covered(outs, from, to, code(p.push(seq![start])), n, n + 1),
    ensures
        covered(outs, from, to, code(p), n, 1),
{
    let u = code(p);
    let uc = code(p.push(seq![start]));
    lemma_code_steps(p, start);
    assert forall|i: int| from <= i < to implies canonical(raised(#[trigger] outs[i]), n) && below(
        outs[i],
        n,
    ) && agree(u, code(outs[i]), u.len() as int) && (code(outs[i]).len() > u.len() ==> code(
        outs[i],
    )[u.len() as int] < 1) by {
        let c = code(outs[i]);
        assert(agree(uc, c, uc.len() as int));
        assert forall|t: int| 0 <= t < u.len() implies u[t] == c[t] by {
            assert(uc[t] == c[t]);
        }
        assert(c[u.len() as int] == uc[u.len() as int]);
    }
    assert forall|q: Seq<Seq<usize>>|
        #[trigger] canonical(q, n) && agree(u, encode(q), u.len() as int) && (encode(q).len()
            > u.len() ==> encode(q)[u.len() as int] < 1) implies exists|i: int|
        from <= i < to && raised(#[trigger] outs[i]) == q by {
        let w = encode(q);
        lemma_encode_ok(q, n);
        lemma_code_longer(p, taken, n, free, w);
        lemma_code_head(p, taken, n, free, w, start);
        assert(agree(uc, w, uc.len() as int));
    }
}

/// Where no partition goes on with a symbol from `upto` up to `wider`, what
/// was gathered for symbols below `upto` is what is to be gathered for
/// symbols below `wider`.
pub proof fn lemma_covered_skip(
    outs: Seq<Seq<Seq<usize>>>,
    from: int,
    to: int,
    p: Seq<Seq<usize>>,
    taken: Seq<bool>,
    n: nat,
    free: nat,
    upto: nat,
    wider: nat,
)
    requires
        building(p, taken, n, free),
        n <= usize::MAX,
        free > 0,
        1 <= upto <= wider,
        covered(outs, from, to, code(p), n, upto),
        forall|v: int|
            upto <= v + 1 < wider && 0 <= v < n ==> p.len() == 0 || v <= p.last().last()
                || #[trigger] taken[v],
    ensures
        covered(outs, from, to, code(p), n, wider),
{
    let u = code(p);
    assert forall|q: Seq<Seq<usize>>|
        #[trigger] canonical(q, n) && agree(u, encode(q), u.len() as int) && (encode(q).len()
            > u.len() ==> encode(q)[u.len() as int] < wider) implies exists|i: int|
        from <= i < to && raised(#[trigger] outs[i]) == q by {
        let w = encode(q);
        lemma_encode_ok(q, n);
        lemma_code_longer(p, taken, n, free, w);
        let s = w[u.len() as int];
        if p.len() == 0 {
            assert(raised(p) =~= Seq::<Seq<usize>>::empty());
            assert(w[0] == 0);
        } else {
            lemma_code_next(p, taken, n, free, w);
            if s >= upto {
                assert(taken[s - 1]);
            }
        }
        assert(s < upto);
    }
}

/// What the state with one more element in its last block gives is what the
/// state gives behind the symbol of that element.
pub proof fn lemma_covered_child(
    outs: Seq<Seq<Seq<usize>>>,
    from: int,
    mid: int,
    to: int,
    p: Seq<Seq<usize>>,
    taken: Seq<bool>,
    n: nat,
    free: nat,
    x: usize,
)
    requires
        building(p, taken, n, free),
        n <= usize::MAX,
        free > 0,
        p.len() > 0,
        x < n,
        covered(outs, from, mid, code(p), n, (x + 1) as nat),
        covered(outs, mid, to, code(grow(p, x)), n, n + 1),
    ensures
        covered(outs, from, to, code(p), n, (x + 2) as nat),
{
    let u = code(p);
    let uc = code(grow(p, x));
    let k = u.len() as int;
    lemma_code_steps(p, x);
    assert forall|i: int| from <= i < to implies canonical(raised(#[trigger] outs[i]), n) && below(
        outs[i],
        n,
    ) && agree(u, code(outs[i]), u.len() as int) && (code(outs[i]).len() > u.len() ==> code(
        outs[i],
    )[u.len() as int] < x + 2) by {
        if i >= mid {
            let c = code(outs[i]);
            assert(agree(uc, c, uc.len() as int));
            assert forall|t: int| 0 <= t < u.len() implies u[t] == c[t] by {
                assert(uc[t] == c[t]);
            }
            assert(c[k] == uc[k]);
        }
    }
    assert forall|i: int, j: int| from <= i < j < to implies precedes(
        raised(#[trigger] outs[i]),
        raised(#[trigger] outs[j]),
    ) by {
        if i < mid && j >= mid {
            let a = code(outs[i]);
            let b = code(outs[j]);
            lemma_encode_ok(raised(outs[i]), n);
            lemma_code_longer(p, taken, n, free, a);
            assert(agree(uc, b, uc.len() as int));
            assert(b[k] == uc[k]);
            assert forall|t: int| 0 <= t < k implies a[t] == b[t] by {
                assert(u[t] == a[t]);
                assert(uc[t] == b[t]);
            }
            assert(less_at(a, b, k));
        }
    }
    assert forall|q: Seq<Seq<usize>>|
        #[trigger] canonical(q, n) && agree(u, encode(q), u.len() as int) && (encode(q).len()
            > u.len() ==> encode(q)[u.len() as int] < x + 2) implies exists|i: int|
        from <= i < to && raised(#[trigger] outs[i]) == q by {
        let w = encode(q);
        lemma_encode_ok(q, n);
        lemma_code_longer(p, taken, n, free, w);
        if w[k] < x + 1 {
            let i = choose|i: int| from <= i < mid && raised(#[trigger] outs[i]) == q;
            assert(from <= i < to);
        } else {
            assert(agree(uc, w, uc.len() as int)) by {
                assert forall|t: int| 0 <= t < uc.len() implies uc[t] == w[t] by {
                    if t < k {
                        assert(u[t] == w[t]);
                    }
                }
            }
            let i = choose|i: int| mid <= i < to && raised(#[trigger] outs[i]) == q;
            assert(from <= i < to);
        }
    }
}

/// What is gathered from the state without blocks is the list of all
/// partitions in the order of visiting.
pub proof fn lemma_covered_all(outs: Seq<Seq<Seq<usize>>>, n: nat, upto: nat)
    requires
        n <= usize::MAX,
        upto >= 1,
        covered(outs, 0, outs.len() as int, Seq::empty(), n, upto),
    ensures
        sorted_and_complete(raised_all(outs), n),
        forall|i: int| 0 <= i < outs.len() ==> is_partition_from_zero(#[trigger] outs[i], n),
{
    let list = raised_all(outs);
    let none = Seq::<usize>::empty();
    assert forall|q: Seq<Seq<usize>>| #[trigger] canonical(q, n) implies list.contains(q) by {
        lemma_encode_ok(q, n);
        if encode(q).len() > 0 {
            assert(encode(q)[0] == 0);
        }
        let i = choose|i: int| 0 <= i < outs.len() && raised(#[trigger] outs[i]) == q;
        assert(list[i] == q);
    }
    assert forall|i: int| 0 <= i < outs.len() implies is_partition_from_zero(
        #[trigger] outs[i],
        n,
    ) by {
        lemma_lowered(outs[i], n);
    }
}

/// Blocks whose raised blocks are a partition of `{1, ..., n}` are a
/// partition of `{0, ..., n - 1}`.
pub proof fn lemma_lowered(p: Seq<Seq<usize>>, n: nat)
    requires
        n <= usize::MAX,
        canonical(raised(p), n),
        below(p, n),
    ensures
        is_partition_from_zero(p, n),
{
    let r = raised(p);
    assert forall|i: int| 0 <= i < p.len() implies (#[trigger] p[i]).len() > 0 && ascending(
        p[i],
    ) by {
        assert(r[i].len() > 0 && ascending(r[i]));
        assert forall|a: int, b: int| 0 <= a < b < p[i].len() implies p[i][a] < p[i][b] by {
            assert(r[i][a] < r[i][b]);
            assert(p[i][a] < n && p[i][b] < n);
        }
    }
    assert forall|i: int, j: int, k: int, l: int|
        0 <= i < p.len() && 0 <= j < p[i].len() && 0 <= k < p.len() && 0 <= l < p[k].len()
            && #[trigger] p[i][j] == #[trigger] p[k][l] implies i == k && j == l by {
        assert(r[i][j] == r[k][l]);
    }
    assert forall|v: usize| v < n implies placed(p, v) by {
        assert(placed(r, (v + 1) as usize));
        let (a, b) = choose|a: int, b: int|
            0 <= a < r.len() && a < r.len() && 0 <= b < r[a].len() && r[a][b] == (v + 1) as usize;
        assert(p[a][b] < n);
        assert(p[a][b] == v);
    }
}

/// The state without blocks, in which every element is free.
pub proof fn lemma_building_start(taken: Seq<bool>, n: nat)
    requires
        taken.len() == n,
        forall|t: int| 0 <= t < n ==> !taken[t],
        free_count(taken, n) == n,
    ensures
        building(Seq::empty(), taken, n, n),
        code(Seq::empty()) == Seq::<usize>::empty(),
{
    let none = Seq::<Seq<usize>>::empty();
    assert forall|v: usize| v < n implies (#[trigger] taken[v as int] <==> placed(none, v)) by {}
    assert(raised(none) =~= none);
}

} // verus!
