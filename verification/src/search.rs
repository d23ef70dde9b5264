//! The states that the search for the next partition passes through: a
//! buffer whose last block is being taken apart, and the set of elements that
//! are free, which is what the bag holds.

use crate::encoding::{code_ok, lemma_encode_last, lemma_encode_ok, spaced};
use crate::order::{
    agree, candidate, closed_beyond, lemma_close_place, lemma_closed_at_end,
    lemma_closed_past_end, lemma_closed_throughout, lemma_next_code, lone_from,
};
use crate::partition::{
    ascending, canonical, encode, is_last, is_successor, lex_less, placed, placed_before,
};
use vstd::prelude::*;

verus! {

/// `p` without the last element of its last block.
pub open spec fn shrink(p: Seq<Seq<usize>>) -> Seq<Seq<usize>> {
    p.update(p.len() - 1, p.last().drop_last())
}

/// `p` with `x` added at the end of its last block.
pub open spec fn grow(p: Seq<Seq<usize>>, x: usize) -> Seq<Seq<usize>> {
    p.update(p.len() - 1, p.last().push(x))
}

/// One block for each entry of `bag`, holding that entry alone.
pub open spec fn singles(bag: Seq<usize>) -> Seq<Seq<usize>> {
    Seq::new(bag.len(), |i: int| seq![bag[i]])
}

/// A state of the search: the blocks of `p` and the free elements together
/// hold each of `1, ..., n` once; only the last block of `p` may be empty.
pub closed spec fn searching(p: Seq<Seq<usize>>, free: Set<usize>, n: nat) -> bool {
    &&& n <= usize::MAX
    &&& p.len() >= 1
    &&& spaced(p)
    &&& forall|i: int| 0 <= i < p.len() - 1 ==> (#[trigger] p[i]).len() > 0
    &&& forall|i: int, j: int| 0 <= i < p.len() && 0 <= j < p[i].len() ==> #[trigger] p[i][j] <= n
    &&& forall|v: usize| #[trigger] free.contains(v) ==> 1 <= v <= n && !placed(p, v)
    &&& forall|v: usize|
        #![trigger free.contains(v)]
        #![trigger placed(p, v)]
        1 <= v <= n ==> placed(p, v) || free.contains(v)
}

/// Taking the last element off the last block takes the last entry off what
/// is written.
pub proof fn lemma_encode_shrink(p: Seq<Seq<usize>>)
    requires
        p.len() > 0,
        p.last().len() > 0,
    ensures
        encode(p).len() > 0,
        encode(shrink(p)) == encode(p).drop_last(),
        encode(p).last() == p.last().last(),
{
    let q = shrink(p);
    assert(q.drop_last() == p.drop_last());
    assert(q.last() == p.last().drop_last());
    lemma_encode_last(p);
    lemma_encode_last(q);
    assert(encode(q) =~= encode(p).drop_last());
}

/// Putting an element at the end of the last block puts it at the end of
/// what is written.
pub proof fn lemma_encode_grow(p: Seq<Seq<usize>>, x: usize)
    requires
        p.len() > 0,
    ensures
        encode(grow(p, x)) == encode(p).push(x),
{
    let q = grow(p, x);
    assert(q.drop_last() == p.drop_last());
    assert(q.last() == p.last().push(x));
    lemma_encode_last(p);
    lemma_encode_last(q);
    assert(encode(q) =~= encode(p).push(x));
}

/// What is written for blocks of which the last is empty ends with a
/// separator.
pub proof fn lemma_encode_empty_last(p: Seq<Seq<usize>>)
    requires
        p.len() > 0,
        p.last().len() == 0,
    ensures
        encode(p) == encode(p.drop_last()).push(0),
{
    lemma_encode_last(p);
    assert(encode(p) =~= encode(p.drop_last()).push(0));
}

/// What is written for `p` holds the elements of `p` and, besides them,
/// separators only.
pub proof fn lemma_encode_elements(p: Seq<Seq<usize>>)
    ensures
        forall|i: int, j: int|
            0 <= i < p.len() && 0 <= j < p[i].len() ==> encode(p).contains(#[trigger] p[i][j]),
        forall|t: int|
            0 <= t < encode(p).len() && #[trigger] encode(p)[t] != 0 ==> placed(p, encode(p)[t]),
    decreases p.len(),
{
    let w = encode(p);
    if p.len() > 0 {
        let q = p.drop_last();
        let w1 = encode(q);
        let m = w1.len() as int;
        let last = p.len() - 1;
        lemma_encode_elements(q);
        lemma_encode_last(p);
        assert forall|i: int, j: int| 0 <= i < p.len() && 0 <= j < p[i].len() implies w.contains(
            #[trigger] p[i][j],
        ) by {
            if i < last {
                assert(w1.contains(q[i][j]));
                let t = choose|t: int| 0 <= t < w1.len() && w1[t] == q[i][j];
                assert(w[t] == p[i][j]);
            } else {
                assert(w[m + 1 + j] == p[i][j]);
            }
        }
        assert forall|t: int| 0 <= t < w.len() && #[trigger] w[t] != 0 implies placed(p, w[t]) by {
            if t < m {
                assert(w1[t] == w[t]);
                assert(placed(q, w1[t]));
                let (i, j) = choose|i: int, j: int|
                    0 <= i < q.len() && i < q.len() && 0 <= j < q[i].len() && q[i][j] == w1[t];
                assert(p[i][j] == w[t]);
            } else {
                assert(p[last][t - m - 1] == w[t]);
            }
        }
    }
}

/// The search starts from a partition with nothing free.
pub proof fn lemma_search_start(p: Seq<Seq<usize>>, n: nat)
    requires
        canonical(p, n),
        p.len() >= 1,
    ensures
        searching(p, Set::empty(), n),
{
    crate::encoding::lemma_canonical_stacked(p, n);
}

/// Freeing the last element of the last block.
pub proof fn lemma_release(p: Seq<Seq<usize>>, free: Set<usize>, n: nat)
    requires
        searching(p, free, n),
        p.last().len() > 0,
    ensures
        searching(shrink(p), free.insert(p.last().last()), n),
{
    let q = shrink(p);
    let x = p.last().last();
    let last = p.len() - 1;
    let more = free.insert(x);
    assert(forall|i: int| 0 <= i < last ==> q[i] == p[i]);
    assert(forall|j: int| 0 <= j < q[last].len() ==> q[last][j] == p[last][j]);
    assert forall|i: int| 0 <= i < q.len() implies ascending(#[trigger] q[i]) by {
        assert(ascending(p[i]));
    }
    assert forall|i: int, j: int, k: int, l: int|
        0 <= i < q.len() && 0 <= j < q[i].len() && 0 <= k < q.len() && 0 <= l < q[k].len()
            && #[trigger] q[i][j] == #[trigger] q[k][l] implies i == k && j == l by {
        assert(p[i][j] == p[k][l]);
    }
    assert forall|i: int, v: usize|
        0 <= i < q.len() && q[i].len() > 0 && 1 <= v < q[i][0] implies #[trigger] placed_before(
        q,
        i,
        v,
    ) by {
        assert(p[i][0] == q[i][0]);
        assert(placed_before(p, i, v));
        let (a, b) = choose|a: int, b: int|
            0 <= a < i && a < p.len() && 0 <= b < p[a].len() && p[a][b] == v;
        assert(q[a][b] == v);
    }
    assert forall|v: usize| #[trigger] more.contains(v) implies 1 <= v <= n && !placed(q, v) by {
        if placed(q, v) {
            let (a, b) = choose|a: int, b: int|
                0 <= a < q.len() && a < q.len() && 0 <= b < q[a].len() && q[a][b] == v;
            assert(p[a][b] == v);
            assert(placed(p, v));
            assert(p[last][p[last].len() - 1] == x);
        }
        if v == x {
            assert(p[last][p[last].len() - 1] == x);
        }
    }
    assert forall|v: usize|
        #![trigger more.contains(v)]
        #![trigger placed(q, v)]
        1 <= v <= n implies placed(q, v) || more.contains(v) by {
        if !free.contains(v) && v != x {
            assert(placed(p, v));
            let (a, b) = choose|a: int, b: int|
                0 <= a < p.len() && a < p.len() && 0 <= b < p[a].len() && p[a][b] == v;
            assert(q[a][b] == v);
        }
    }
}

/// Moving a free element that is greater than the last element of the last
/// block to the end of that block.
pub proof fn lemma_extend(p: Seq<Seq<usize>>, free: Set<usize>, n: nat, c: usize)
    requires
        searching(p, free, n),
        p.last().len() > 0,
        free.contains(c),
        c > p.last().last(),
    ensures
        searching(grow(p, c), free.remove(c), n),
{
    let q = grow(p, c);
    let last = p.len() - 1;
    let fewer = free.remove(c);
    let m = p[last].len() as int;
    assert(forall|i: int| 0 <= i < last ==> q[i] == p[i]);
    assert(forall|j: int| 0 <= j < m ==> q[last][j] == p[last][j]);
    assert(q[last][m] == c);
    assert forall|i: int| 0 <= i < q.len() implies ascending(#[trigger] q[i]) by {
        assert(ascending(p[i]));
        if i == last {
            assert forall|a: int, b: int| 0 <= a < b < q[i].len() implies q[i][a] < q[i][b] by {
                if b == m {
                    assert(p[last][a] <= p[last][m - 1]);
                }
            }
        }
    }
    assert forall|i: int, j: int| 0 <= i < q.len() && 0 <= j < q[i].len() implies 1
        <= #[trigger] q[i][j] <= n by {
        if i == last && j == m {
        } else {
            assert(q[i][j] == p[i][j]);
        }
    }
    assert forall|i: int, j: int, k: int, l: int|
        0 <= i < q.len() && 0 <= j < q[i].len() && 0 <= k < q.len() && 0 <= l < q[k].len()
            && #[trigger] q[i][j] == #[trigger] q[k][l] implies i == k && j == l by {
        if i == last && j == m {
            if !(k == last && l == m) {
                assert(p[k][l] == c);
                assert(placed(p, c));
            }
        } else if k == last && l == m {
            assert(p[i][j] == c);
            assert(placed(p, c));
        } else {
            assert(p[i][j] == p[k][l]);
        }
    }
    assert forall|i: int, v: usize|
        0 <= i < q.len() && q[i].len() > 0 && 1 <= v < q[i][0] implies #[trigger] placed_before(
        q,
        i,
        v,
    ) by {
        assert(p[i][0] == q[i][0]);
        assert(placed_before(p, i, v));
        let (a, b) = choose|a: int, b: int|
            0 <= a < i && a < p.len() && 0 <= b < p[a].len() && p[a][b] == v;
        assert(q[a][b] == v);
    }
    assert forall|v: usize| #[trigger] fewer.contains(v) implies 1 <= v <= n && !placed(q, v) by {
        if placed(q, v) {
            let (a, b) = choose|a: int, b: int|
                0 <= a < q.len() && a < q.len() && 0 <= b < q[a].len() && q[a][b] == v;
            assert(p[a][b] == v);
            assert(placed(p, v));
        }
    }
    assert forall|v: usize|
        #![trigger fewer.contains(v)]
        #![trigger placed(q, v)]
        1 <= v <= n implies placed(q, v) || fewer.contains(v) by {
        if v == c {
            assert(q[last][m] == v);
        } else if !free.contains(v) {
            assert(placed(p, v));
            let (a, b) = choose|a: int, b: int|
                0 <= a < p.len() && a < p.len() && 0 <= b < p[a].len() && p[a][b] == v;
            assert(q[a][b] == v);
        }
    }
}

/// Dropping the last block once it is empty.
pub proof fn lemma_drop_block(p: Seq<Seq<usize>>, free: Set<usize>, n: nat)
    requires
        searching(p, free, n),
        p.len() > 1,
        p.last().len() == 0,
    ensures
        searching(p.drop_last(), free, n),
        p.drop_last().last().len() > 0,
{
    let q = p.drop_last();
    crate::encoding::lemma_spaced_drop_last(p);
    assert(forall|i: int| 0 <= i < q.len() ==> q[i] == p[i]);
    assert(q.last() == p[q.len() - 1]);
    assert forall|v: usize| #[trigger] free.contains(v) implies 1 <= v <= n && !placed(q, v) by {
        if placed(q, v) {
            let (a, b) = choose|a: int, b: int|
                0 <= a < q.len() && a < q.len() && 0 <= b < q[a].len() && q[a][b] == v;
            assert(p[a][b] == v);
            assert(placed(p, v));
        }
    }
    assert forall|v: usize|
        #![trigger free.contains(v)]
        #![trigger placed(q, v)]
        1 <= v <= n implies placed(q, v) || free.contains(v) by {
        if !free.contains(v) {
            assert(placed(p, v));
            let (a, b) = choose|a: int, b: int|
                0 <= a < p.len() && a < p.len() && 0 <= b < p[a].len() && p[a][b] == v;
            assert(q[a][b] == v);
        }
    }
}

/// A candidate for the place behind what the state holds, or for the last
/// place of what it holds, is free and greater than the last element of the
/// last block.
pub proof fn lemma_candidate_free(
    p: Seq<Seq<usize>>,
    free: Set<usize>,
    w: Seq<usize>,
    n: nat,
    k: int,
    c: usize,
)
    requires
        searching(p, free, n),
        agree(encode(p), w, encode(p).len() as int),
        p.last().len() > 0,
        (k == encode(p).len() && k < w.len()) || k == encode(p).len() - 1,
        candidate(w, n, k, c),
    ensures
        free.contains(c),
        c > p.last().last(),
{
    lemma_encode_elements(p);
    lemma_encode_last(p);
    let e = encode(p);
    assert(e.last() == p.last().last());
    assert(w[e.len() - 1] == e[e.len() - 1]);
    if placed(p, c) {
        let (a, b) = choose|a: int, b: int|
            0 <= a < p.len() && a < p.len() && 0 <= b < p[a].len() && p[a][b] == c;
        assert(e.contains(p[a][b]));
        let s = choose|s: int| 0 <= s < e.len() && e[s] == c;
        assert(w[s] == c);
    }
}

/// When nothing in the bag is greater than the last element of the last
/// block, no candidate is left for the place.
pub proof fn lemma_probe_none(
    p: Seq<Seq<usize>>,
    bag: Seq<usize>,
    w: Seq<usize>,
    n: nat,
    k: int,
)
    requires
        searching(p, bag.to_set(), n),
        agree(encode(p), w, encode(p).len() as int),
        p.last().len() > 0,
        (k == encode(p).len() && k < w.len()) || k == encode(p).len() - 1,
        forall|j: int| 0 <= j < bag.len() ==> bag[j] <= p.last().last(),
    ensures
        forall|c: usize| !candidate(w, n, k, c),
{
    assert forall|c: usize| !candidate(w, n, k, c) by {
        if candidate(w, n, k, c) {
            lemma_candidate_free(p, bag.to_set(), w, n, k, c);
            let j = choose|j: int| 0 <= j < bag.len() && bag[j] == c;
            assert(bag[j] <= p.last().last());
        }
    }
}

/// The first entry of the bag that is greater than the last element of the
/// last block is the least candidate for the place.
pub proof fn lemma_probe_some(
    p: Seq<Seq<usize>>,
    bag: Seq<usize>,
    w: Seq<usize>,
    n: nat,
    k: int,
    i: int,
)
    requires
        searching(p, bag.to_set(), n),
        ascending(bag),
        agree(encode(p), w, encode(p).len() as int),
        p.last().len() > 0,
        (k == encode(p).len() && k < w.len()) || k == encode(p).len() - 1,
        0 <= i < bag.len(),
        forall|j: int| 0 <= j < i ==> bag[j] < p.last().last(),
    ensures
        forall|c: usize| candidate(w, n, k, c) ==> bag[i] <= c,
{
    assert forall|c: usize| candidate(w, n, k, c) implies bag[i] <= c by {
        lemma_candidate_free(p, bag.to_set(), w, n, k, c);
        let j = choose|j: int| 0 <= j < bag.len() && bag[j] == c;
        if j < i {
            assert(bag[j] < p.last().last());
        } else if j > i {
            assert(bag[i] < bag[j]);
        }
    }
}

/// A candidate stands somewhere later in the code.
pub proof fn lemma_candidate_later(w: Seq<usize>, n: nat, k: int, c: usize)
    requires
        code_ok(w, n),
        0 <= k < w.len(),
        candidate(w, n, k, c),
    ensures
        exists|f: int| k < f < w.len() && w[f] == c,
{
    assert(w.contains(c));
    let f = choose|f: int| 0 <= f < w.len() && w[f] == c;
    assert(k < f < w.len() && w[f] == c);
}

/// With nothing free and a last block of one or two elements, no place of
/// that block can be raised.
pub proof fn lemma_close_short_block(p: Seq<Seq<usize>>, n: nat)
    requires
        code_ok(encode(p), n),
        p.len() >= 1,
        1 <= p.last().len() <= 2,
    ensures
        encode(p.drop_last()).len() + 1 < encode(p).len(),
        encode(p)[encode(p.drop_last()).len() as int] == 0,
        closed_beyond(encode(p), n, (encode(p.drop_last()).len() + 1) as int),
{
    let w = encode(p);
    let m = encode(p.drop_last()).len() as int;
    lemma_encode_last(p);
    lemma_closed_at_end(w, n);
    if p.last().len() == 2 {
        let k = w.len() - 1;
        assert forall|c: usize| !candidate(w, n, k, c) by {
            if candidate(w, n, k, c) {
                lemma_candidate_later(w, n, k, c);
            }
        }
        lemma_close_place(w, n, k);
    }
    assert(w[m] == 0);
    lemma_close_place(w, n, m + 1);
}

/// The place behind a separator cannot be raised.
pub proof fn lemma_close_head(w: Seq<usize>, n: nat, k: int)
    requires
        code_ok(w, n),
        0 <= k < w.len(),
        k == 0 || w[k - 1] == 0,
        closed_beyond(w, n, k + 1),
    ensures
        closed_beyond(w, n, k),
{
    lemma_close_place(w, n, k);
}

/// A partition whose code cannot be raised at any place is the last one.
pub proof fn lemma_last_found(p: Seq<Seq<usize>>, n: nat)
    requires
        canonical(p, n),
        closed_beyond(encode(p), n, 0),
    ensures
        is_last(p, n),
{
    assert forall|r: Seq<Seq<usize>>| #[trigger] canonical(r, n) implies !lex_less(
        encode(p),
        encode(r),
    ) by {
        lemma_encode_ok(r, n);
        lemma_closed_throughout(encode(p), encode(r), n);
    }
}

/// What a state of the search says of its last block.
pub proof fn lemma_last_block(p: Seq<Seq<usize>>, free: Set<usize>, n: nat)
    requires
        searching(p, free, n),
    ensures
        p.len() >= 1,
        ascending(p.last()),
        p.last().len() > 0 ==> !free.contains(p.last().last()),
{
    if p.last().len() > 0 {
        assert(p[p.len() - 1][p.last().len() - 1] == p.last().last());
    }
}

/// The partition of the empty set is the only one, hence the last.
pub proof fn lemma_empty_last(p: Seq<Seq<usize>>, n: nat)
    requires
        canonical(p, n),
        p.len() == 0,
    ensures
        n == 0,
        is_last(p, n),
{
    if n > 0 {
        assert(placed(p, 1));
    }
    assert forall|r: Seq<Seq<usize>>| #[trigger] canonical(r, n) implies !lex_less(
        encode(p),
        encode(r),
    ) by {
        if r.len() > 0 {
            assert(r[0].len() > 0);
            assert(1 <= r[0][0] <= n);
        }
    }
}

/// What is written when one block for each entry of `bag` is put behind `p`:
/// it begins with what is written for `p`, and behind that each element
/// stands directly behind a separator.
pub proof fn lemma_encode_singles(p: Seq<Seq<usize>>, bag: Seq<usize>)
    requires
        p.len() > 0,
    ensures
        agree(encode(p), encode(p + singles(bag)), encode(p).len() as int),
        lone_from(encode(p + singles(bag)), encode(p).len() as int),
    decreases bag.len(),
{
    let r = p + singles(bag);
    lemma_encode_last(p);
    if bag.len() == 0 {
        assert(r =~= p);
    } else {
        let rest = bag.drop_last();
        let q = p + singles(rest);
        lemma_encode_singles(p, rest);
        assert(r.drop_last() =~= q);
        assert(r.last() =~= seq![bag.last()]);
        lemma_encode_last(r);
        let x = encode(r);
        let y = encode(q);
        let k = encode(p).len() as int;
        assert(x.len() == y.len() + 2);
        assert(x[y.len() as int] == 0);
        assert forall|e: int| k <= e < x.len() && #[trigger] x[e] != 0 implies e >= 1 by {}
        assert forall|e: int, d: int|
            k <= e < x.len() && d == e - 1 && d >= 0 && #[trigger] x[e] != 0 implies #[trigger] x[d]
            == 0 by {
            if e < y.len() {
                assert(x[e] == y[e]);
                assert(y[d] == 0);
                assert(x[d] == y[d]);
            }
        }
    }
}

/// When the last block is not empty, putting one block for each free element
/// behind the buffer, in ascending order, gives a partition.
pub proof fn lemma_finish(p: Seq<Seq<usize>>, bag: Seq<usize>, n: nat)
    requires
        searching(p, bag.to_set(), n),
        ascending(bag),
        p.last().len() > 0,
    ensures
        canonical(p + singles(bag), n),
{
    let r = p + singles(bag);
    let m = p.len() as int;
    let free = bag.to_set();
    assert(forall|i: int| 0 <= i < m ==> r[i] == p[i]);
    assert(forall|i: int| m <= i < r.len() ==> r[i] == seq![bag[i - m]]);
    assert(forall|k: int| 0 <= k < bag.len() ==> free.contains(bag[k]));
    assert forall|i: int| 0 <= i < r.len() implies (#[trigger] r[i]).len() > 0 && ascending(
        r[i],
    ) by {
        if i < m {
            assert(ascending(p[i]));
        }
    }
    assert forall|i: int, j: int| 0 <= i < r.len() && 0 <= j < r[i].len() implies 1
        <= #[trigger] r[i][j] <= n by {
        if i < m {
            assert(r[i][j] == p[i][j]);
        } else {
            assert(free.contains(bag[i - m]));
        }
    }
    assert forall|i: int, j: int, k: int, l: int|
        0 <= i < r.len() && 0 <= j < r[i].len() && 0 <= k < r.len() && 0 <= l < r[k].len()
            && #[trigger] r[i][j] == #[trigger] r[k][l] implies i == k && j == l by {
        if i < m && k < m {
            assert(p[i][j] == p[k][l]);
        } else if i < m {
            assert(free.contains(bag[k - m]));
            assert(p[i][j] == bag[k - m]);
            assert(placed(p, bag[k - m]));
        } else if k < m {
            assert(free.contains(bag[i - m]));
            assert(p[k][l] == bag[i - m]);
            assert(placed(p, bag[i - m]));
        } else {
            if i < k {
                assert(bag[i - m] < bag[k - m]);
            }
            if k < i {
                assert(bag[k - m] < bag[i - m]);
            }
        }
    }
    assert forall|v: usize| 1 <= v <= n implies placed(r, v) by {
        if placed(p, v) {
            let (a, b) = choose|a: int, b: int|
                0 <= a < p.len() && a < p.len() && 0 <= b < p[a].len() && p[a][b] == v;
            assert(r[a][b] == v);
        } else {
            assert(free.contains(v));
            let k = choose|k: int| 0 <= k < bag.len() && bag[k] == v;
            assert(r[m + k][0] == v);
        }
    }
    assert forall|i: int, k: int| 0 <= i < k < r.len() implies (#[trigger] r[i])[0] < (
    #[trigger] r[k])[0] by {
        if k < m {
            let v = p[k][0];
            if v < p[i][0] {
                assert(placed_before(p, i, v));
                let (a, b) = choose|a: int, b: int|
                    0 <= a < i && a < p.len() && 0 <= b < p[a].len() && p[a][b] == v;
                assert(p[a][b] == p[k][0]);
            }
            if v == p[i][0] {
                assert(p[i][0] == p[k][0]);
            }
        } else if i < m {
            let v = bag[k - m];
            assert(free.contains(v));
            if v < p[i][0] {
                assert(placed_before(p, i, v));
                let (a, b) = choose|a: int, b: int|
                    0 <= a < i && a < p.len() && 0 <= b < p[a].len() && p[a][b] == v;
                assert(placed(p, v));
            }
            if v == p[i][0] {
                assert(placed(p, v));
            }
        } else {
            assert(bag[i - m] < bag[k - m]);
        }
    }
}

/// The state reached when the least candidate has been put at place `k` is,
/// with one block for each free element behind it, the partition next after
/// `p0`.
pub proof fn lemma_successor_found(
    p0: Seq<Seq<usize>>,
    p: Seq<Seq<usize>>,
    bag: Seq<usize>,
    n: nat,
    k: int,
)
    requires
        canonical(p0, n),
        searching(p, bag.to_set(), n),
        ascending(bag),
        p.last().len() > 0,
        0 <= k < encode(p0).len(),
        encode(p).len() == k + 1,
        agree(encode(p), encode(p0), k),
        encode(p0)[k] < encode(p)[k],
        closed_beyond(encode(p0), n, k + 1),
        forall|c: usize| candidate(encode(p0), n, k, c) ==> encode(p)[k] <= c,
    ensures
        is_successor(p0, p + singles(bag), n),
{
    let w = encode(p0);
    let r = p + singles(bag);
    let x = encode(r);
    lemma_encode_ok(p0, n);
    lemma_finish(p, bag, n);
    lemma_encode_ok(r, n);
    lemma_encode_singles(p, bag);
    assert(x[k] == encode(p)[k]);
    assert(agree(w, x, k)) by {
        assert forall|i: int| 0 <= i < k implies w[i] == x[i] by {
            assert(encode(p)[i] == x[i]);
        }
    }
    lemma_next_code(w, x, n, k);
    assert forall|q: Seq<Seq<usize>>| #[trigger] canonical(q, n) && lex_less(
        w,
        encode(q),
    ) implies !lex_less(encode(q), x) by {
        lemma_encode_ok(q, n);
    }
}

/// Freeing a last block of one or two elements and dropping it, when
/// nothing else is free.
pub proof fn lemma_strip_block(p: Seq<Seq<usize>>, n: nat)
    requires
        searching(p, Set::empty(), n),
        p.len() > 1,
        1 <= p.last().len() <= 2,
    ensures
        searching(p.drop_last(), p.last().to_set(), n),
        p.drop_last().last().len() > 0,
{
    let b = p.last();
    let none = Set::<usize>::empty();
    lemma_release(p, none, n);
    let once = shrink(p);
    let freed = none.insert(b.last());
    if b.len() == 2 {
        lemma_release(once, freed, n);
        let twice = shrink(once);
        let freed_both = freed.insert(b[0]);
        assert(once.last().last() == b[0]);
        lemma_drop_block(twice, freed_both, n);
        assert(twice.drop_last() =~= p.drop_last());
        assert forall|v: usize| freed_both.contains(v) <==> b.to_set().contains(v) by {
            if b.contains(v) {
                let i = choose|i: int| 0 <= i < b.len() && b[i] == v;
            }
            assert(b.contains(b[0]));
            assert(b.contains(b[1]));
        }
        assert(freed_both =~= b.to_set());
    } else {
        lemma_drop_block(once, freed, n);
        assert(once.drop_last() =~= p.drop_last());
        assert forall|v: usize| freed.contains(v) <==> b.to_set().contains(v) by {
            if b.contains(v) {
                let i = choose|i: int| 0 <= i < b.len() && b[i] == v;
            }
            assert(b.contains(b[0]));
        }
        assert(freed =~= b.to_set());
    }
}

/// The number of entries written for `p`.
pub open spec fn place(p: Seq<Seq<usize>>) -> int {
    encode(p).len() as int
}

/// Where the search for the partition next after `p0` stands: it holds the
/// blocks `p` and the free elements `free`; what is written for `p` is a
/// beginning of what is written for `p0`; and no partition that agrees with
/// `p0` on the first `shut` entries comes after `p0`.
pub closed spec fn tracking(
    p0: Seq<Seq<usize>>,
    n: nat,
    p: Seq<Seq<usize>>,
    free: Set<usize>,
    shut: int,
) -> bool {
    &&& canonical(p0, n)
    &&& searching(p, free, n)
    &&& place(p) <= place(p0)
    &&& agree(encode(p), encode(p0), place(p))
    &&& closed_beyond(encode(p0), n, shut)
}

/// Whether, in what is written for `p0`, a separator stands right behind what
/// is written for `p`.
pub closed spec fn before_gap(p0: Seq<Seq<usize>>, p: Seq<Seq<usize>>) -> bool {
    place(p) < place(p0) && encode(p0)[place(p)] == 0
}

/// What the search holds: at least one block, the last one ascending, its
/// last element not free.
pub proof fn lemma_track_state(
    p0: Seq<Seq<usize>>,
    n: nat,
    p: Seq<Seq<usize>>,
    free: Set<usize>,
    shut: int,
)
    requires
        tracking(p0, n, p, free, shut),
    ensures
        canonical(p0, n),
        p.len() >= 1,
        ascending(p.last()),
        p.last().len() > 0 ==> !free.contains(p.last().last()),
{
    lemma_last_block(p, free, n);
}

/// The search starts at the end of `p0`, with nothing free.
pub proof fn lemma_track_start(p0: Seq<Seq<usize>>, n: nat)
    requires
        canonical(p0, n),
        p0.len() >= 1,
    ensures
        tracking(p0, n, p0, Set::empty(), place(p0) + 1),
        p0.last().len() > 0,
{
    lemma_search_start(p0, n);
    lemma_closed_past_end(encode(p0), n, place(p0) + 1);
    assert(p0.last() == p0[p0.len() - 1]);
}

/// A single block of fewer than three elements is the last partition.
pub proof fn lemma_track_short_only(p0: Seq<Seq<usize>>, n: nat, shut: int)
    requires
        tracking(p0, n, p0, Set::empty(), shut),
        p0.len() == 1,
        1 <= p0.last().len() <= 2,
    ensures
        is_last(p0, n),
{
    lemma_encode_ok(p0, n);
    lemma_close_short_block(p0, n);
    assert(encode(p0.drop_last()) =~= Seq::<usize>::empty());
    lemma_close_head(encode(p0), n, 0);
    lemma_last_found(p0, n);
}

/// With nothing free, a last block of fewer than three elements cannot be
/// raised: it is freed as a whole.
pub proof fn lemma_track_strip(p0: Seq<Seq<usize>>, n: nat, shut: int)
    requires
        tracking(p0, n, p0, Set::empty(), shut),
        p0.len() > 1,
        1 <= p0.last().len() <= 2,
    ensures
        tracking(p0, n, p0.drop_last(), p0.last().to_set(), place(p0.drop_last()) + 1),
        before_gap(p0, p0.drop_last()),
        p0.drop_last().last().len() > 0,
{
    lemma_encode_ok(p0, n);
    lemma_close_short_block(p0, n);
    lemma_strip_block(p0, n);
    lemma_encode_last(p0);
}

/// With nothing free, a last block of three elements or more is raised by
/// putting its last element in the place of the one before.
pub proof fn lemma_track_split(p0: Seq<Seq<usize>>, n: nat, shut: int, bag: Seq<usize>)
    requires
        tracking(p0, n, p0, Set::empty(), shut),
        p0.last().len() >= 3,
        ascending(bag),
        bag.to_set() == Set::<usize>::empty().insert(p0.last()[p0.last().len() - 2]),
    ensures
        is_successor(
            p0,
            grow(shrink(shrink(p0)), p0.last().last()) + singles(bag),
            n,
        ),
{
    let none = Set::<usize>::empty();
    let w0 = encode(p0);
    let b = p0.last();
    let x = b[b.len() - 1];
    let y = b[b.len() - 2];
    let once = shrink(p0);
    let twice = shrink(once);
    let raised = grow(twice, x);
    let len = w0.len() as int;
    let last_place = len - 1;
    let place_before = len - 2;
    lemma_encode_ok(p0, n);
    lemma_last_block(p0, none, n);
    assert(once.last().last() == y);
    assert(twice.last().last() == b[b.len() - 3]);
    lemma_release(p0, none, n);
    lemma_release(once, none.insert(x), n);
    lemma_extend(twice, none.insert(x).insert(y), n, x);
    assert(bag.to_set() =~= none.insert(x).insert(y).remove(x));
    lemma_encode_shrink(p0);
    lemma_encode_shrink(once);
    lemma_encode_grow(twice, x);
    lemma_closed_at_end(w0, n);
    assert forall|c: usize| !candidate(w0, n, last_place, c) by {
        if candidate(w0, n, last_place, c) {
            lemma_candidate_later(w0, n, last_place, c);
        }
    }
    lemma_close_place(w0, n, last_place);
    assert forall|c: usize| candidate(w0, n, place_before, c) implies x <= c by {
        lemma_candidate_later(w0, n, place_before, c);
    }
    lemma_successor_found(p0, raised, bag, n, place_before);
}

/// At a gap, the first entry of the bag that is greater than the last element
/// of the last block raises that block.
pub proof fn lemma_track_found(
    p0: Seq<Seq<usize>>,
    n: nat,
    p: Seq<Seq<usize>>,
    bag: Seq<usize>,
    i: int,
)
    requires
        tracking(p0, n, p, bag.to_set(), place(p) + 1),
        before_gap(p0, p),
        p.last().len() > 0,
        ascending(bag),
        0 <= i < bag.len(),
        bag[i] >= p.last().last(),
        forall|j: int| 0 <= j < i ==> bag[j] < p.last().last(),
    ensures
        is_successor(p0, grow(p, bag[i]) + singles(bag.remove(i)), n),
{
    let x = bag[i];
    let k = place(p);
    lemma_last_block(p, bag.to_set(), n);
    assert(bag.to_set().contains(x));
    lemma_probe_some(p, bag, encode(p0), n, k, i);
    lemma_extend(p, bag.to_set(), n, x);
    crate::bag::lemma_bag_removed(bag, i);
    lemma_encode_grow(p, x);
    lemma_successor_found(p0, grow(p, x), bag.remove(i), n, k);
}

/// At a gap, when nothing in the bag is greater than the last element of the
/// last block, that block cannot be raised there.
pub proof fn lemma_track_gap_shut(
    p0: Seq<Seq<usize>>,
    n: nat,
    p: Seq<Seq<usize>>,
    bag: Seq<usize>,
)
    requires
        tracking(p0, n, p, bag.to_set(), place(p) + 1),
        before_gap(p0, p),
        p.last().len() > 0,
        forall|j: int| 0 <= j < bag.len() ==> bag[j] <= p.last().last(),
    ensures
        tracking(p0, n, p, bag.to_set(), place(p)),
{
    lemma_encode_ok(p0, n);
    lemma_probe_none(p, bag, encode(p0), n, place(p));
    lemma_close_place(encode(p0), n, place(p));
}

/// Inside a block of two elements or more, the first entry of the bag that
/// is greater than the last element takes its place.
pub proof fn lemma_track_swap(
    p0: Seq<Seq<usize>>,
    n: nat,
    p: Seq<Seq<usize>>,
    bag: Seq<usize>,
    i: int,
    rest: Seq<usize>,
)
    requires
        tracking(p0, n, p, bag.to_set(), place(p)),
        p.last().len() >= 2,
        ascending(bag),
        0 <= i < bag.len(),
        bag[i] >= p.last().last(),
        forall|j: int| 0 <= j < i ==> bag[j] < p.last().last(),
        ascending(rest),
        rest.to_set() == bag.to_set().remove(bag[i]).insert(p.last().last()),
    ensures
        is_successor(p0, grow(shrink(p), bag[i]) + singles(rest), n),
{
    let x = bag[i];
    let z = p.last().last();
    let k = place(p) - 1;
    let once = shrink(p);
    lemma_last_block(p, bag.to_set(), n);
    assert(bag.to_set().contains(x));
    lemma_probe_some(p, bag, encode(p0), n, k, i);
    lemma_release(p, bag.to_set(), n);
    lemma_encode_shrink(p);
    assert(once.last().last() == p.last()[p.last().len() - 2]);
    lemma_extend(once, bag.to_set().insert(z), n, x);
    assert(rest.to_set() =~= bag.to_set().insert(z).remove(x));
    lemma_encode_grow(once, x);
    lemma_successor_found(p0, grow(once, x), rest, n, k);
}

/// When nothing in the bag is greater than the last element of the last
/// block, that element cannot be raised: it is freed.
pub proof fn lemma_track_give_up(
    p0: Seq<Seq<usize>>,
    n: nat,
    p: Seq<Seq<usize>>,
    bag: Seq<usize>,
)
    requires
        tracking(p0, n, p, bag.to_set(), place(p)),
        p.last().len() > 0,
        forall|j: int| 0 <= j < bag.len() ==> bag[j] <= p.last().last(),
    ensures
        tracking(p0, n, shrink(p), bag.to_set().insert(p.last().last()), place(shrink(p))),
        place(shrink(p)) == place(p) - 1,
{
    lemma_encode_ok(p0, n);
    lemma_encode_shrink(p);
    lemma_probe_none(p, bag, encode(p0), n, place(p) - 1);
    lemma_close_place(encode(p0), n, place(p) - 1);
    lemma_release(p, bag.to_set(), n);
}

/// The first element of a block cannot be raised: it is freed.
pub proof fn lemma_track_head(
    p0: Seq<Seq<usize>>,
    n: nat,
    p: Seq<Seq<usize>>,
    free: Set<usize>,
)
    requires
        tracking(p0, n, p, free, place(p)),
        p.last().len() == 1,
    ensures
        tracking(p0, n, shrink(p), free.insert(p.last().last()), place(shrink(p))),
        shrink(p).last().len() == 0,
{
    let q = shrink(p);
    let k = place(q);
    lemma_encode_ok(p0, n);
    lemma_encode_shrink(p);
    lemma_release(p, free, n);
    lemma_encode_empty_last(q);
    assert(k >= 1);
    assert(encode(p0)[k - 1] == encode(p)[k - 1]);
    assert(encode(q)[k - 1] == 0);
    lemma_close_head(encode(p0), n, k);
}

/// An empty last block is dropped; the search then stands at the gap before
/// it.
pub proof fn lemma_track_drop(
    p0: Seq<Seq<usize>>,
    n: nat,
    p: Seq<Seq<usize>>,
    free: Set<usize>,
)
    requires
        tracking(p0, n, p, free, place(p)),
        p.len() > 1,
        p.last().len() == 0,
    ensures
        tracking(p0, n, p.drop_last(), free, place(p.drop_last()) + 1),
        before_gap(p0, p.drop_last()),
        p.drop_last().last().len() > 0,
{
    lemma_drop_block(p, free, n);
    lemma_encode_empty_last(p);
    let k = place(p);
    assert(encode(p0)[k - 1] == encode(p)[k - 1]);
}

/// When the only block is empty and cannot be raised, `p0` is the last
/// partition.
pub proof fn lemma_track_exhausted(
    p0: Seq<Seq<usize>>,
    n: nat,
    p: Seq<Seq<usize>>,
    free: Set<usize>,
)
    requires
        tracking(p0, n, p, free, place(p)),
        p.len() == 1,
        p.last().len() == 0,
    ensures
        is_last(p0, n),
{
    lemma_encode_ok(p0, n);
    lemma_encode_empty_last(p);
    assert(p.drop_last() =~= Seq::<Seq<usize>>::empty());
    assert(place(p) == 1);
    assert(encode(p0)[0] == encode(p)[0]);
    lemma_close_head(encode(p0), n, 0);
    lemma_last_found(p0, n);
}

} // verus!
