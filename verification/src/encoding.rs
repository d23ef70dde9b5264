//! Facts about partitions written out as one sequence: what such a sequence
//! looks like, and that the partition can be read back from it.

use crate::partition::{ascending, canonical, encode, placed, placed_before};
use vstd::prelude::*;

verus! {

/// Whether `v` is the first element of one of the blocks of `p`.
pub open spec fn heads(p: Seq<Seq<usize>>, v: usize) -> bool {
    exists|i: int| 0 <= i < p.len() && (#[trigger] p[i]).len() > 0 && p[i][0] == v
}

/// Blocks of distinct positive elements, each ascending, such that whatever is
/// smaller than the first element of a block stands in an earlier block. The
/// last condition speaks of earlier blocks only, so it survives when later
/// blocks are changed.
pub open spec fn spaced(p: Seq<Seq<usize>>) -> bool {
    &&& forall|i: int| 0 <= i < p.len() ==> ascending(#[trigger] p[i])
    &&& forall|i: int, j: int| 0 <= i < p.len() && 0 <= j < p[i].len() ==> 1 <= #[trigger] p[i][j]
    &&& forall|i: int, j: int, k: int, l: int|
        0 <= i < p.len() && 0 <= j < p[i].len() && 0 <= k < p.len() && 0 <= l < p[k].len()
            && #[trigger] p[i][j] == #[trigger] p[k][l] ==> i == k && j == l
    &&& forall|i: int, v: usize|
        0 <= i < p.len() && p[i].len() > 0 && 1 <= v < p[i][0] ==> #[trigger] placed_before(
            p,
            i,
            v,
        )
}

/// `spaced`, and no block is empty.
pub open spec fn stacked(p: Seq<Seq<usize>>) -> bool {
    &&& spaced(p)
    &&& forall|i: int| 0 <= i < p.len() ==> (#[trigger] p[i]).len() > 0
}

/// The shape of what `encode` writes for stacked blocks.
pub open spec fn code_shape(w: Seq<usize>) -> bool {
    &&& w.len() > 0 ==> w[0] == 0
    &&& forall|s: int, t: int|
        0 <= s < w.len() && 0 <= t < w.len() && #[trigger] w[s] == #[trigger] w[t] && w[s] != 0
            ==> s == t
    &&& forall|t: int| 0 <= t < w.len() && #[trigger] w[t] == 0 ==> t + 1 < w.len()
    &&& forall|t: int, k: int|
        0 <= t && k == t + 1 && k < w.len() && #[trigger] w[t] == 0 ==> #[trigger] w[k] != 0
    &&& forall|t: int, k: int|
        0 <= t && k == t + 1 && k < w.len() && #[trigger] w[t] != 0 && #[trigger] w[k] != 0
            ==> w[t] < w[k]
    &&& forall|t: int, k: int, u: int|
        0 <= t && k == t + 1 && k < u < w.len() && #[trigger] w[t] == 0 && #[trigger] w[u] != 0
            ==> #[trigger] w[k] < w[u]
}

/// Whether `w` has the shape of a written-out partition of `{1, ..., n}`.
pub open spec fn code_ok(w: Seq<usize>, n: nat) -> bool {
    &&& code_shape(w)
    &&& forall|t: int| 0 <= t < w.len() ==> #[trigger] w[t] <= n
    &&& forall|v: usize| 1 <= v <= n ==> w.contains(v)
}

/// How `w`, written for `p`, reflects `p`.
pub open spec fn mirrors(p: Seq<Seq<usize>>, w: Seq<usize>) -> bool {
    &&& w.len() > 0 <==> p.len() > 0
    &&& forall|t: int| 0 <= t < w.len() && #[trigger] w[t] != 0 ==> placed(p, w[t])
    &&& forall|i: int, j: int|
        0 <= i < p.len() && 0 <= j < p[i].len() ==> w.contains(#[trigger] p[i][j])
    &&& forall|t: int, k: int|
        0 <= t && k == t + 1 && k < w.len() && #[trigger] w[t] == 0 ==> heads(p, #[trigger] w[k])
}

/// What `encode` writes for a sequence that is not empty, entry by entry.
pub proof fn lemma_encode_last(p: Seq<Seq<usize>>)
    requires
        p.len() > 0,
    ensures
        encode(p) == encode(p.drop_last()).push(0) + p.last(),
        encode(p).len() == encode(p.drop_last()).len() + 1 + p.last().len(),
        forall|t: int|
            0 <= t < encode(p.drop_last()).len() ==> #[trigger] encode(p)[t] == encode(
                p.drop_last(),
            )[t],
        encode(p)[encode(p.drop_last()).len() as int] == 0,
        forall|j: int|
            0 <= j < p.last().len() ==> encode(p)[encode(p.drop_last()).len() + 1 + j]
                == #[trigger] p.last()[j],
{
}

/// Dropping the last block of spaced blocks leaves spaced blocks.
pub proof fn lemma_spaced_drop_last(p: Seq<Seq<usize>>)
    requires
        spaced(p),
        p.len() > 0,
    ensures
        spaced(p.drop_last()),
{
    let q = p.drop_last();
    assert forall|i: int, v: usize|
        0 <= i < q.len() && q[i].len() > 0 && 1 <= v < q[i][0] implies #[trigger] placed_before(
        q,
        i,
        v,
    ) by {
        assert(placed_before(p, i, v));
        let (a, b) = choose|a: int, b: int|
            0 <= a < i && a < p.len() && 0 <= b < p[a].len() && p[a][b] == v;
        assert(q[a][b] == v);
    }
}

/// What is written for stacked blocks has the shape of a code, and holds the
/// elements of the blocks and nothing else but separators.
pub proof fn lemma_encode_shape(p: Seq<Seq<usize>>)
    requires
        stacked(p),
    ensures
        code_shape(encode(p)),
        mirrors(p, encode(p)),
    decreases p.len(),
{
    let w = encode(p);
    if p.len() == 0 {
    } else {
        let q = p.drop_last();
        let b = p.last();
        let last = p.len() - 1;
        let w1 = encode(q);
        let m = w1.len() as int;
        lemma_spaced_drop_last(p);
        lemma_encode_shape(q);
        lemma_encode_last(p);
        assert(b == p[last]);
        assert(b.len() > 0);
        assert(forall|i: int| 0 <= i < q.len() ==> q[i] == p[i]);
        // every entry of w is the separator or an element of p
        assert forall|t: int| 0 <= t < w.len() && #[trigger] w[t] != 0 implies placed(p, w[t]) by {
            if t < m {
                assert(placed(q, w1[t]));
                let (i, j) = choose|i: int, j: int|
                    0 <= i < q.len() && i < q.len() && 0 <= j < q[i].len() && q[i][j] == w1[t];
                assert(p[i][j] == w[t]);
            } else {
                assert(p[last][t - m - 1] == w[t]);
            }
        }
        // every element of p is an entry of w
        assert forall|i: int, j: int| 0 <= i < p.len() && 0 <= j < p[i].len() implies w.contains(
            #[trigger] p[i][j],
        ) by {
            if i < last {
                assert(w1.contains(q[i][j]));
                let t = choose|t: int| 0 <= t < w1.len() && w1[t] == q[i][j];
                assert(w[t] == p[i][j]);
            } else {
                assert(w[m + 1 + j] == p[i][j]);
            }
        }
        // the entry behind a separator is the first element of a block
        assert forall|t: int, k: int|
            0 <= t && k == t + 1 && k < w.len() && #[trigger] w[t] == 0 implies heads(
            p,
            #[trigger] w[k],
        ) by {
            if t < m {
                assert(w1[t] == 0);
                assert(k < m);
                assert(heads(q, w1[k]));
                let i = choose|i: int| 0 <= i < q.len() && (#[trigger] q[i]).len() > 0 && q[i][0] == w1[k];
                assert(p[i].len() > 0 && p[i][0] == w[k]);
            } else if t == m {
                assert(w[k] == b[0]);
                assert(p[last].len() > 0 && p[last][0] == w[k]);
            } else {
                assert(w[t] == b[t - m - 1]);
            }
        }
        // no element is written twice
        assert forall|s: int, t: int|
            0 <= s < w.len() && 0 <= t < w.len() && #[trigger] w[s] == #[trigger] w[t] && w[s]
                != 0 implies s == t by {
            if s < m && t > m {
                lemma_encode_clash(p, s, t);
            } else if t < m && s > m {
                lemma_encode_clash(p, t, s);
            } else if s > m && t > m {
                assert(w[s] == b[s - m - 1]);
                assert(w[t] == b[t - m - 1]);
            } else {
                assert(s < m && t < m);
                assert(w1[s] == w1[t]);
            }
        }
        assert forall|t: int| 0 <= t < w.len() && #[trigger] w[t] == 0 implies t + 1 < w.len() by {
            if t < m {
                assert(w1[t] == 0);
            } else if t > m {
                assert(w[t] == b[t - m - 1]);
            }
        }
        assert forall|t: int, k: int|
            0 <= t && k == t + 1 && k < w.len() && #[trigger] w[t] == 0 implies #[trigger] w[k]
            != 0 by {
            if t < m {
                assert(w1[t] == 0);
                assert(w1[k] != 0);
            } else if t == m {
                assert(w[k] == b[0]);
            } else {
                assert(w[t] == b[t - m - 1]);
            }
        }
        assert forall|t: int, k: int|
            0 <= t && k == t + 1 && k < w.len() && #[trigger] w[t] != 0 && #[trigger] w[k]
                != 0 implies w[t] < w[k] by {
            if k < m {
                assert(w1[t] < w1[k]);
            } else if t > m {
                assert(w[t] == b[t - m - 1]);
                assert(w[k] == b[k - m - 1]);
            }
        }
        assert forall|t: int, k: int, u: int|
            0 <= t && k == t + 1 && k < u < w.len() && #[trigger] w[t] == 0 && #[trigger] w[u]
                != 0 implies #[trigger] w[k] < w[u] by {
            if u < m {
                assert(w1[t] == 0);
                assert(w1[k] < w1[u]);
            } else if t < m {
                assert(w1[t] == 0);
                assert(k < m);
                assert(u > m);
                assert(heads(q, w1[k]));
                let i = choose|i: int| 0 <= i < q.len() && (#[trigger] q[i]).len() > 0 && q[i][0] == w1[k];
                let v = w[u];
                assert(v == p[last][u - m - 1]);
                assert(p[i][0] == w[k]);
                if v < p[i][0] {
                    assert(placed_before(p, i, v));
                    let (a, c) = choose|a: int, c: int|
                        0 <= a < i && a < p.len() && 0 <= c < p[a].len() && p[a][c] == v;
                    assert(p[a][c] == p[last][u - m - 1]);
                }
            } else if t == m {
                assert(w[k] == b[0]);
                assert(w[u] == b[u - m - 1]);
            } else {
                assert(w[t] == b[t - m - 1]);
            }
        }
    }
}

/// An element of the last block is written nowhere before that block.
proof fn lemma_encode_clash(p: Seq<Seq<usize>>, s: int, t: int)
    requires
        stacked(p),
        p.len() > 0,
        mirrors(p.drop_last(), encode(p.drop_last())),
        0 <= s < encode(p.drop_last()).len(),
        encode(p.drop_last()).len() < t < encode(p).len(),
        encode(p)[s] != 0,
    ensures
        encode(p)[s] != encode(p)[t],
{
    let q = p.drop_last();
    let w1 = encode(q);
    let m = w1.len() as int;
    let last = p.len() - 1;
    lemma_encode_last(p);
    assert(placed(q, w1[s]));
    let (i, j) = choose|i: int, j: int|
        0 <= i < q.len() && i < q.len() && 0 <= j < q[i].len() && q[i][j] == w1[s];
    assert(p[i][j] == encode(p)[s]);
    assert(p[last][t - m - 1] == encode(p)[t]);
}

/// A partition whose blocks stand in the order of their least elements is
/// stacked.
pub proof fn lemma_canonical_stacked(p: Seq<Seq<usize>>, n: nat)
    requires
        canonical(p, n),
    ensures
        stacked(p),
{
    assert forall|i: int, v: usize|
        0 <= i < p.len() && p[i].len() > 0 && 1 <= v < p[i][0] implies #[trigger] placed_before(
        p,
        i,
        v,
    ) by {
        assert(p[i][0] <= n);
        assert(placed(p, v));
        let (a, b) = choose|a: int, b: int|
            0 <= a < p.len() && a < p.len() && 0 <= b < p[a].len() && p[a][b] == v;
        if a >= i {
            if a > i {
                assert(p[i][0] < p[a][0]);
            }
            assert(ascending(p[a]));
            assert(p[a][0] <= p[a][b]);
        }
    }
}

/// What is written for a partition of `{1, ..., n}` is a code for `n`.
pub proof fn lemma_encode_ok(p: Seq<Seq<usize>>, n: nat)
    requires
        canonical(p, n),
    ensures
        code_ok(encode(p), n),
        mirrors(p, encode(p)),
{
    let w = encode(p);
    lemma_canonical_stacked(p, n);
    lemma_encode_shape(p);
    assert forall|t: int| 0 <= t < w.len() implies #[trigger] w[t] <= n by {
        if w[t] != 0 {
            assert(placed(p, w[t]));
        }
    }
    assert forall|v: usize| 1 <= v <= n implies w.contains(v) by {
        assert(placed(p, v));
        let (a, b) = choose|a: int, b: int|
            0 <= a < p.len() && a < p.len() && 0 <= b < p[a].len() && p[a][b] == v;
        assert(w.contains(p[a][b]));
    }
}

} // verus!
