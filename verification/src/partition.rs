//! What a set partition of `{1, ..., n}` is, and the order in which the
//! partitions are visited.
//!
//! A partition is modelled as a sequence of blocks, each block a sequence of
//! elements. To compare two partitions their blocks are written out one after
//! the other, each behind a `0`; since every element is at least `1`, the
//! separator is smaller than any element. The partitions are visited in the
//! lexicographic order of what is so written.

use vstd::prelude::*;

verus! {

/// Whether `s` is in strictly ascending order.
pub open spec fn ascending(s: Seq<usize>) -> bool {
    forall|i: int, j: int| 0 <= i < j < s.len() ==> s[i] < s[j]
}

/// The blocks that a buffer holds.
pub open spec fn blocks(buffer: Seq<Vec<usize>>) -> Seq<Seq<usize>> {
    Seq::new(buffer.len(), |i: int| buffer[i]@)
}

/// Whether `v` is an element of one of the first `upto` blocks of `p`.
pub open spec fn placed_before(p: Seq<Seq<usize>>, upto: int, v: usize) -> bool {
    exists|i: int, j: int| 0 <= i < upto && i < p.len() && 0 <= j < p[i].len() && p[i][j] == v
}

/// Whether `v` is an element of one of the blocks of `p`.
pub open spec fn placed(p: Seq<Seq<usize>>, v: usize) -> bool {
    placed_before(p, p.len() as int, v)
}

/// Whether `p` is a partition of `{1, ..., n}`: its blocks are not empty, each
/// is strictly ascending, no element occurs twice, and every number from `1`
/// to `n` occurs.
pub open spec fn is_partition(p: Seq<Seq<usize>>, n: nat) -> bool {
    &&& n <= usize::MAX
    &&& forall|i: int| 0 <= i < p.len() ==> (#[trigger] p[i]).len() > 0 && ascending(p[i])
    &&& forall|i: int, j: int|
        0 <= i < p.len() && 0 <= j < p[i].len() ==> 1 <= #[trigger] p[i][j] <= n
    &&& forall|i: int, j: int, k: int, l: int|
        0 <= i < p.len() && 0 <= j < p[i].len() && 0 <= k < p.len() && 0 <= l < p[k].len()
            && #[trigger] p[i][j] == #[trigger] p[k][l] ==> i == k && j == l
    &&& forall|v: usize| 1 <= v <= n ==> placed(p, v)
}

/// Whether `p` is a partition of `{0, ..., n - 1}`: its blocks are not empty,
/// each is strictly ascending, no element occurs twice, and every number
/// below `n` occurs.
pub open spec fn is_partition_from_zero(p: Seq<Seq<usize>>, n: nat) -> bool {
    &&& forall|i: int| 0 <= i < p.len() ==> (#[trigger] p[i]).len() > 0 && ascending(p[i])
    &&& forall|i: int, j: int| 0 <= i < p.len() && 0 <= j < p[i].len() ==> #[trigger] p[i][j] < n
    &&& forall|i: int, j: int, k: int, l: int|
        0 <= i < p.len() && 0 <= j < p[i].len() && 0 <= k < p.len() && 0 <= l < p[k].len()
            && #[trigger] p[i][j] == #[trigger] p[k][l] ==> i == k && j == l
    &&& forall|v: usize| v < n ==> placed(p, v)
}

/// Whether `p` is a partition of `{1, ..., n}` whose blocks stand in the order
/// of their least elements. Each partition can be written in one such way.
pub open spec fn canonical(p: Seq<Seq<usize>>, n: nat) -> bool {
    &&& is_partition(p, n)
    &&& forall|i: int, k: int| 0 <= i < k < p.len() ==> (#[trigger] p[i])[0] < (#[trigger] p[k])[0]
}

/// The partition of `{1, ..., n}` into `n` blocks of one element.
pub open spec fn singletons(n: nat) -> Seq<Seq<usize>> {
    Seq::new(n, |i: int| seq![(i + 1) as usize])
}

/// The blocks of `p` written one after the other, each behind a `0`.
pub open spec fn encode(p: Seq<Seq<usize>>) -> Seq<usize>
    decreases p.len(),
{
    if p.len() == 0 {
        Seq::empty()
    } else {
        encode(p.drop_last()).push(0) + p.last()
    }
}

/// Whether `a` and `b` agree on their first `k` entries and `a` then ends or
/// goes on with the smaller entry.
pub open spec fn less_at(a: Seq<usize>, b: Seq<usize>, k: int) -> bool {
    &&& 0 <= k <= a.len()
    &&& k < b.len()
    &&& forall|i: int| 0 <= i < k ==> a[i] == b[i]
    &&& k < a.len() ==> a[k] < b[k]
}

/// The lexicographic order of sequences.
pub open spec fn lex_less(a: Seq<usize>, b: Seq<usize>) -> bool {
    exists|k: int| less_at(a, b, k)
}

/// Whether `p` is visited before `q`.
pub open spec fn precedes(p: Seq<Seq<usize>>, q: Seq<Seq<usize>>) -> bool {
    lex_less(encode(p), encode(q))
}

/// Whether `q` is the partition of `{1, ..., n}` that is visited next after
/// `p`: the first one behind `p`.
pub open spec fn is_successor(p: Seq<Seq<usize>>, q: Seq<Seq<usize>>, n: nat) -> bool {
    &&& canonical(q, n)
    &&& precedes(p, q)
    &&& forall|r: Seq<Seq<usize>>| #[trigger] canonical(r, n) && precedes(p, r) ==> !precedes(r, q)
}

/// Whether no partition of `{1, ..., n}` is visited after `p`.
pub open spec fn is_last(p: Seq<Seq<usize>>, n: nat) -> bool {
    forall|r: Seq<Seq<usize>>| #[trigger] canonical(r, n) ==> !precedes(p, r)
}

/// A partition is a partition of one set only.
pub proof fn lemma_ground_unique(p: Seq<Seq<usize>>, n: nat, m: nat)
    requires
        is_partition(p, n),
        is_partition(p, m),
    ensures
        n == m,
{
    if n < m {
        assert(placed(p, m as usize));
    }
    if m < n {
        assert(placed(p, n as usize));
    }
}

/// The blocks of one element each, in ascending order, are a partition.
pub proof fn lemma_singletons_canonical(n: nat)
    requires
        n <= usize::MAX,
    ensures
        canonical(singletons(n), n),
{
    let p = singletons(n);
    assert forall|v: usize| 1 <= v <= n implies placed(p, v) by {
        assert(p[v - 1][0] == v);
    }
}

} // verus!
