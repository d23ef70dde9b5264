//! What holds of the order in which the partitions are visited, and of the
//! sequence as a whole.

use crate::encoding::{lemma_encode_last, lemma_encode_ok};
use crate::order::{
    lemma_lex_irreflexive, lemma_lex_total, lemma_lex_transitive, lemma_tail_least, lone_from,
};
use crate::search::{lemma_empty_last, lemma_track_short_only, lemma_track_start, place};
use vstd::relations::injective_on;
use vstd::set_lib::{lemma_int_range, lemma_map_size, set_int_range};
use crate::partition::{
    ascending, canonical, encode, is_last, is_successor, lemma_singletons_canonical, precedes, singletons,
};
use crate::rank::{lemma_rank_bound, lemma_rank_increases, power, rank};
use vstd::prelude::*;

verus! {

/// Blocks that are not empty and hold no `0` can be read back from what is
/// written for them.
pub proof fn lemma_encode_injective(p: Seq<Seq<usize>>, q: Seq<Seq<usize>>)
    requires
        forall|i: int, j: int| 0 <= i < p.len() && 0 <= j < p[i].len() ==> #[trigger] p[i][j] != 0,
        forall|i: int, j: int| 0 <= i < q.len() && 0 <= j < q[i].len() ==> #[trigger] q[i][j] != 0,
        encode(p) == encode(q),
    ensures
        p == q,
    decreases p.len(),
{
    if p.len() == 0 {
        if q.len() > 0 {
            lemma_encode_last(q);
        }
        assert(p =~= q);
    } else {
        lemma_encode_last(p);
        if q.len() == 0 {
        } else {
            lemma_encode_last(q);
            let w = encode(p);
            let a = encode(p.drop_last()).len() as int;
            let b = encode(q.drop_last()).len() as int;
            let pl = p.len() - 1;
            let ql = q.len() - 1;
            if a < b {
                assert(w[b] == p[pl][b - a - 1]);
            }
            if b < a {
                assert(w[a] == q[ql][a - b - 1]);
            }
            assert(p.last() =~= q.last()) by {
                assert forall|j: int| 0 <= j < p.last().len() implies p.last()[j] == q.last()[j] by {
                    assert(w[a + 1 + j] == p.last()[j]);
                    assert(w[b + 1 + j] == q.last()[j]);
                }
            }
            assert(encode(p.drop_last()) =~= encode(q.drop_last())) by {
                assert forall|t: int| 0 <= t < a implies encode(p.drop_last())[t] == encode(
                    q.drop_last(),
                )[t] by {
                    assert(w[t] == encode(p.drop_last())[t]);
                    assert(w[t] == encode(q.drop_last())[t]);
                }
            }
            assert(forall|i: int| 0 <= i < pl ==> p.drop_last()[i] == p[i]);
            assert(forall|i: int| 0 <= i < ql ==> q.drop_last()[i] == q[i]);
            lemma_encode_injective(p.drop_last(), q.drop_last());
            assert(p =~= p.drop_last().push(p.last()));
            assert(q =~= q.drop_last().push(q.last()));
        }
    }
}

/// No partition is visited before itself.
pub proof fn lemma_precedes_irreflexive(p: Seq<Seq<usize>>)
    ensures
        !precedes(p, p),
{
    lemma_lex_irreflexive(encode(p));
}

/// What is visited before something that is visited before a third, is
/// visited before the third.
pub proof fn lemma_precedes_transitive(p: Seq<Seq<usize>>, q: Seq<Seq<usize>>, r: Seq<Seq<usize>>)
    requires
        precedes(p, q),
        precedes(q, r),
    ensures
        precedes(p, r),
{
    lemma_lex_transitive(encode(p), encode(q), encode(r));
}

/// Of two different partitions of `{1, ..., n}` one is visited before the
/// other.
pub proof fn lemma_precedes_total(p: Seq<Seq<usize>>, q: Seq<Seq<usize>>, n: nat)
    requires
        canonical(p, n),
        canonical(q, n),
    ensures
        p == q || precedes(p, q) || precedes(q, p),
{
    lemma_lex_total(encode(p), encode(q));
    if encode(p) == encode(q) {
        lemma_encode_injective(p, q);
    }
}

/// A partition has one successor at most: whatever is visited next after `p`
/// is the same partition.
pub proof fn lemma_successor_unique(
    p: Seq<Seq<usize>>,
    q: Seq<Seq<usize>>,
    r: Seq<Seq<usize>>,
    n: nat,
)
    requires
        is_successor(p, q, n),
        is_successor(p, r, n),
    ensures
        q == r,
{
    lemma_precedes_total(q, r, n);
}

/// The last partition has no successor, and a partition with a successor is
/// not the last.
pub proof fn lemma_last_has_no_successor(p: Seq<Seq<usize>>, q: Seq<Seq<usize>>, n: nat)
    requires
        is_last(p, n),
    ensures
        !is_successor(p, q, n),
{
}

/// The partition that is visited next after `p`, if there is one.
pub open spec fn successor(p: Seq<Seq<usize>>, n: nat) -> Option<Seq<Seq<usize>>> {
    if exists|q: Seq<Seq<usize>>| is_successor(p, q, n) {
        Some(choose|q: Seq<Seq<usize>>| is_successor(p, q, n))
    } else {
        None
    }
}

/// The partition of `{1, ..., n}` that is handed out at step `i`, counted
/// from `0`, or `None` when the sequence has ended before.
pub open spec fn nth(n: nat, i: nat) -> Option<Seq<Seq<usize>>>
    decreases i,
{
    if i == 0 {
        Some(singletons(n))
    } else {
        match nth(n, (i - 1) as nat) {
            Some(p) => successor(p, n),
            None => None,
        }
    }
}

/// Among the numbers of which `holds` is true there is a least one.
proof fn lemma_least(holds: spec_fn(nat) -> bool, k: nat) -> (m: nat)
    requires
        holds(k),
    ensures
        holds(m),
        m <= k,
        forall|j: nat| j < m ==> !#[trigger] holds(j),
    decreases k,
{
    if exists|j: nat| j < k && #[trigger] holds(j) {
        let j = choose|j: nat| j < k && #[trigger] holds(j);
        lemma_least(holds, j)
    } else {
        k
    }
}

/// A partition that is not the last one has a successor.
pub proof fn lemma_successor_exists(p: Seq<Seq<usize>>, n: nat)
    requires
        canonical(p, n),
        !is_last(p, n),
    ensures
        exists|q: Seq<Seq<usize>>| is_successor(p, q, n),
{
    let later = |m: nat|
        exists|r: Seq<Seq<usize>>| canonical(r, n) && precedes(p, r) && rank(r, n) == m;
    let r0 = choose|r: Seq<Seq<usize>>| #[trigger] canonical(r, n) && precedes(p, r);
    assert(later(rank(r0, n)));
    let m = lemma_least(later, rank(r0, n));
    let q = choose|r: Seq<Seq<usize>>| canonical(r, n) && precedes(p, r) && rank(r, n) == m;
    assert forall|r: Seq<Seq<usize>>| #[trigger] canonical(r, n) && precedes(p, r) implies !precedes(
        r,
        q,
    ) by {
        if precedes(r, q) {
            lemma_rank_increases(r, q, n);
            assert(later(rank(r, n)));
        }
    }
    assert(is_successor(p, q, n));
}

/// What is visited next after `p` is what `successor` names.
pub proof fn lemma_successor_is(p: Seq<Seq<usize>>, q: Seq<Seq<usize>>, n: nat)
    requires
        is_successor(p, q, n),
    ensures
        successor(p, n) == Some(q),
{
    let c = choose|c: Seq<Seq<usize>>| is_successor(p, c, n);
    lemma_successor_unique(p, c, q, n);
}

/// A partition has a successor unless it is the last one.
pub proof fn lemma_successor_or_last(p: Seq<Seq<usize>>, n: nat)
    requires
        canonical(p, n),
    ensures
        successor(p, n) is None <==> is_last(p, n),
        successor(p, n) matches Some(q) ==> is_successor(p, q, n),
{
    if !is_last(p, n) {
        lemma_successor_exists(p, n);
    }
}

/// Each partition that is handed out is a partition of `{1, ..., n}`: its
/// blocks are not empty, ascending and disjoint, and hold `1, ..., n`.
pub proof fn lemma_nth_canonical(n: nat, i: nat)
    requires
        n <= usize::MAX,
        nth(n, i) is Some,
    ensures
        canonical(nth(n, i).unwrap(), n),
    decreases i,
{
    if i == 0 {
        lemma_singletons_canonical(n);
    } else {
        lemma_nth_canonical(n, (i - 1) as nat);
        lemma_successor_or_last(nth(n, (i - 1) as nat).unwrap(), n);
    }
}

/// Once the sequence has ended it does not start again.
pub proof fn lemma_nth_ended(n: nat, i: nat, j: nat)
    requires
        nth(n, i) is None,
        i <= j,
    ensures
        nth(n, j) is None,
    decreases j,
{
    if i < j {
        lemma_nth_ended(n, i, (j - 1) as nat);
    }
}

/// What is handed out earlier is visited before what is handed out later.
pub proof fn lemma_nth_increasing(n: nat, i: nat, j: nat)
    requires
        n <= usize::MAX,
        i < j,
        nth(n, j) is Some,
    ensures
        nth(n, i) is Some,
        precedes(nth(n, i).unwrap(), nth(n, j).unwrap()),
    decreases j,
{
    let before = nth(n, (j - 1) as nat);
    assert(before is Some);
    lemma_nth_canonical(n, (j - 1) as nat);
    lemma_successor_or_last(before.unwrap(), n);
    if i < j - 1 {
        lemma_nth_increasing(n, i, (j - 1) as nat);
        lemma_precedes_transitive(nth(n, i).unwrap(), before.unwrap(), nth(n, j).unwrap());
    }
}

/// No partition is handed out twice.
pub proof fn lemma_nth_distinct(n: nat, i: nat, j: nat)
    requires
        n <= usize::MAX,
        i != j,
        nth(n, i) is Some,
        nth(n, j) is Some,
    ensures
        nth(n, i) != nth(n, j),
{
    if i < j {
        lemma_nth_increasing(n, i, j);
        lemma_precedes_irreflexive(nth(n, i).unwrap());
    } else {
        lemma_nth_increasing(n, j, i);
        lemma_precedes_irreflexive(nth(n, j).unwrap());
    }
}

/// The number of the partition handed out at step `i` is `i` at least.
proof fn lemma_nth_rank(n: nat, i: nat)
    requires
        n <= usize::MAX,
        nth(n, i) is Some,
    ensures
        rank(nth(n, i).unwrap(), n) >= i,
    decreases i,
{
    if i > 0 {
        lemma_nth_increasing(n, (i - 1) as nat, i);
        lemma_nth_rank(n, (i - 1) as nat);
        lemma_nth_canonical(n, (i - 1) as nat);
        lemma_nth_canonical(n, i);
        lemma_rank_increases(nth(n, (i - 1) as nat).unwrap(), nth(n, i).unwrap(), n);
    }
}

/// The sequence for `n` has fewer steps than `(n + 1)` to the power of
/// `2 * n`.
pub proof fn lemma_nth_below_bound(n: nat, i: nat)
    requires
        n <= usize::MAX,
        nth(n, i) is Some,
    ensures
        i < power(n + 1, 2 * n),
{
    lemma_nth_rank(n, i);
    lemma_nth_canonical(n, i);
    lemma_rank_bound(nth(n, i).unwrap(), n);
}

/// The sequence ends.
pub proof fn lemma_nth_ends(n: nat)
    requires
        n <= usize::MAX,
    ensures
        exists|k: nat| nth(n, k) is None,
{
    let k = power(n + 1, 2 * n);
    if nth(n, k) is Some {
        lemma_nth_rank(n, k);
        lemma_nth_canonical(n, k);
        lemma_rank_bound(nth(n, k).unwrap(), n);
    }
}

/// Whether the sequence for `n` has not ended at step `i`.
pub open spec fn handed(n: nat, i: nat) -> bool {
    nth(n, i) is Some
}

/// How many partitions of `{1, ..., n}` are handed out.
pub open spec fn count(n: nat) -> nat {
    choose|k: nat| !handed(n, k) && forall|j: nat| j < k ==> #[trigger] handed(n, j)
}

/// The sequence for `n` has `count(n)` partitions and then ends.
pub proof fn lemma_count(n: nat)
    requires
        n <= usize::MAX,
    ensures
        !handed(n, count(n)),
        forall|j: nat| j < count(n) ==> #[trigger] handed(n, j),
        count(n) >= 1,
{
    lemma_nth_ends(n);
    let stop = |k: nat| !handed(n, k);
    let k0 = choose|k: nat| nth(n, k) is None;
    assert(stop(k0));
    let k = lemma_least(stop, k0);
    assert(!handed(n, k) && forall|j: nat| j < k ==> #[trigger] handed(n, j)) by {
        assert forall|j: nat| j < k implies #[trigger] handed(n, j) by {
            assert(!stop(j));
        }
    }
    assert(handed(n, 0));
}

/// A sequence that hands out `k` partitions and then ends has `count(n)`
/// partitions.
pub proof fn lemma_count_is(n: nat, k: nat)
    requires
        n <= usize::MAX,
        !handed(n, k),
        forall|j: nat| j < k ==> #[trigger] handed(n, j),
    ensures
        count(n) == k,
{
    lemma_count(n);
    if count(n) < k {
        assert(handed(n, count(n)));
    }
    if k < count(n) {
        assert(handed(n, k));
    }
}

/// In what is written for the blocks of one element each, every element
/// stands directly behind a separator.
proof fn lemma_encode_singletons(n: nat)
    ensures
        lone_from(encode(singletons(n)), 0),
    decreases n,
{
    if n > 0 {
        let p = singletons(n);
        let q = singletons((n - 1) as nat);
        lemma_encode_singletons((n - 1) as nat);
        assert(p.drop_last() =~= q);
        assert(p.last() =~= seq![n as usize]);
        lemma_encode_last(p);
        let x = encode(p);
        let y = encode(q);
        assert(x.len() == y.len() + 2);
        assert(x[y.len() as int] == 0);
        assert forall|e: int| 0 <= e < x.len() && #[trigger] x[e] != 0 implies e >= 1 by {
            if e < y.len() {
                assert(x[e] == y[e]);
            }
        }
        assert forall|e: int, d: int|
            0 <= e < x.len() && d == e - 1 && d >= 0 && #[trigger] x[e] != 0 implies #[trigger] x[d]
            == 0 by {
            if e < y.len() {
                assert(x[e] == y[e]);
                assert(y[d] == 0);
                assert(x[d] == y[d]);
            }
        }
    }
}

/// No partition of `{1, ..., n}` is visited before the one into blocks of
/// one element each.
pub proof fn lemma_singletons_first(q: Seq<Seq<usize>>, n: nat)
    requires
        canonical(q, n),
    ensures
        q == singletons(n) || precedes(singletons(n), q),
{
    lemma_singletons_canonical(n);
    lemma_encode_ok(singletons(n), n);
    lemma_encode_ok(q, n);
    lemma_encode_singletons(n);
    lemma_tail_least(encode(singletons(n)), encode(q), n, 0);
    lemma_precedes_total(singletons(n), q, n);
}

/// Whether `q` is handed out at step `i`.
pub open spec fn visits(n: nat, i: nat, q: Seq<Seq<usize>>) -> bool {
    nth(n, i) == Some(q)
}

/// As long as `q` has not been handed out, what is handed out is visited
/// before `q`, and the sequence goes on.
proof fn lemma_behind(n: nat, q: Seq<Seq<usize>>, i: nat)
    requires
        canonical(q, n),
        forall|j: nat| j <= i ==> !#[trigger] visits(n, j, q),
    ensures
        nth(n, i) is Some,
        precedes(nth(n, i).unwrap(), q),
    decreases i,
{
    if i == 0 {
        assert(!visits(n, 0, q));
        lemma_singletons_first(q, n);
    } else {
        let h = (i - 1) as nat;
        assert forall|j: nat| j <= h implies !#[trigger] visits(n, j, q) by {}
        lemma_behind(n, q, h);
        let p = nth(n, h).unwrap();
        lemma_nth_canonical(n, h);
        lemma_successor_or_last(p, n);
        let s = successor(p, n).unwrap();
        assert(!visits(n, i, q));
        lemma_precedes_total(s, q, n);
    }
}

/// Every partition of `{1, ..., n}` is handed out.
pub proof fn lemma_all_visited(n: nat, q: Seq<Seq<usize>>)
    requires
        canonical(q, n),
    ensures
        exists|i: nat| i < count(n) && #[trigger] visits(n, i, q),
{
    lemma_count(n);
    let k = count(n);
    if forall|j: nat| j <= k ==> !#[trigger] visits(n, j, q) {
        lemma_behind(n, q, k);
        assert(!handed(n, k));
    } else {
        let j = choose|j: nat| j <= k && #[trigger] visits(n, j, q);
        assert(!handed(n, k));
    }
}

/// The partitions of `{1, ..., n}`, each with its blocks in the order of
/// their least elements.
pub open spec fn partitions_of(n: nat) -> Set<Seq<Seq<usize>>> {
    Set::new(|p: Seq<Seq<usize>>| canonical(p, n))
}

/// The Bell number of `n`: how many partitions a set of `n` elements has.
pub open spec fn bell(n: nat) -> nat {
    partitions_of(n).len()
}

/// As many partitions are handed out as the set has: the Bell number of `n`.
pub proof fn lemma_count_is_bell(n: nat)
    requires
        n <= usize::MAX,
    ensures
        partitions_of(n).finite(),
        count(n) == bell(n),
{
    lemma_count(n);
    let k = count(n);
    let steps = set_int_range(0, k as int);
    let at = |i: int| nth(n, i as nat).unwrap();
    lemma_int_range(0, k as int);
    assert(injective_on(at, steps)) by {
        assert forall|a: int, b: int|
            steps.contains(a) && steps.contains(b) && #[trigger] at(a) == #[trigger] at(
                b,
            ) implies a == b by {
            assert(handed(n, a as nat) && handed(n, b as nat));
            if a != b {
                lemma_nth_distinct(n, a as nat, b as nat);
            }
        }
    }
    assert forall|p: Seq<Seq<usize>>| steps.map(at).contains(p) <==> partitions_of(n).contains(
        p,
    ) by {
        if steps.map(at).contains(p) {
            let i = choose|i: int| steps.contains(i) && at(i) == p;
            assert(handed(n, i as nat));
            lemma_nth_canonical(n, i as nat);
        }
        if canonical(p, n) {
            lemma_all_visited(n, p);
            let i = choose|i: nat| i < count(n) && #[trigger] visits(n, i, p);
            assert(steps.contains(i as int) && at(i as int) == p);
        }
    }
    assert(steps.map(at) =~= partitions_of(n));
    lemma_map_size(steps, partitions_of(n), at);
}

/// There is one last partition only.
pub proof fn lemma_last_unique(p: Seq<Seq<usize>>, q: Seq<Seq<usize>>, n: nat)
    requires
        canonical(p, n),
        canonical(q, n),
        is_last(p, n),
        is_last(q, n),
    ensures
        p == q,
{
    lemma_precedes_total(p, q, n);
}

/// The partition handed out at the end is the last one in the order of
/// visiting.
pub proof fn lemma_final_is_last(n: nat)
    requires
        n <= usize::MAX,
    ensures
        count(n) >= 1,
        nth(n, (count(n) - 1) as nat) is Some,
        is_last(nth(n, (count(n) - 1) as nat).unwrap(), n),
{
    lemma_count(n);
    let h = (count(n) - 1) as nat;
    assert(handed(n, h));
    assert(!handed(n, count(n)));
    lemma_nth_canonical(n, h);
    lemma_successor_or_last(nth(n, h).unwrap(), n);
}

/// The one block that holds `1, ..., n`.
pub open spec fn one_block(n: nat) -> Seq<Seq<usize>> {
    seq![Seq::new(n, |i: int| (i + 1) as usize)]
}

/// For one or two elements the partition handed out at the end is the one
/// block of all elements. (With three elements or more the blocks of the last
/// partition have two elements at most.)
pub proof fn lemma_final_is_one_block(n: nat)
    requires
        1 <= n <= 2,
    ensures
        nth(n, (count(n) - 1) as nat) == Some(one_block(n)),
{
    let p = one_block(n);
    assert(canonical(p, n)) by {
        assert forall|v: usize| 1 <= v <= n implies crate::partition::placed(p, v) by {
            assert(p[0][v - 1] == v);
        }
    }
    lemma_track_start(p, n);
    lemma_track_short_only(p, n, place(p) + 1);
    lemma_final_is_last(n);
    let h = (count(n) - 1) as nat;
    lemma_nth_canonical(n, h);
    lemma_last_unique(nth(n, h).unwrap(), p, n);
}

/// Of the empty set one partition is handed out, which has no block.
pub proof fn lemma_empty_set()
    ensures
        count(0) == 1,
        nth(0, 0) == Some(Seq::<Seq<usize>>::empty()),
{
    let none = Seq::<Seq<usize>>::empty();
    assert(singletons(0) =~= none);
    lemma_singletons_canonical(0);
    lemma_empty_last(none, 0);
    lemma_successor_or_last(none, 0);
    assert(!handed(0, 1));
    assert forall|j: nat| j < 1 implies #[trigger] handed(0, j) by {}
    lemma_count_is(0, 1);
}

/// A set of no element and a set of one element have one partition each.
pub proof fn lemma_bell_small()
    ensures
        bell(0) == 1,
        bell(1) == 1,
{
    lemma_empty_set();
    lemma_count_is_bell(0);
    let p = singletons(1);
    lemma_singletons_canonical(1);
    assert(p.last() == p[0]);
    lemma_track_start(p, 1);
    lemma_track_short_only(p, 1, place(p) + 1);
    lemma_successor_or_last(p, 1);
    assert(nth(1, 0) == Some(p));
    assert(nth(1, 1) == successor(p, 1));
    assert(!handed(1, 1));
    assert forall|j: nat| j < 1 implies #[trigger] handed(1, j) by {}
    lemma_count_is(1, 1);
    lemma_count_is_bell(1);
}

/// The blocks of `p` as sets, without their order.
pub open spec fn block_sets(p: Seq<Seq<usize>>) -> Set<Set<usize>> {
    Set::new(|s: Set<usize>| exists|i: int| 0 <= i < p.len() && #[trigger] p[i].to_set() == s)
}

/// Two ascending sequences with the same elements are the same sequence.
pub proof fn lemma_ascending_same_set(a: Seq<usize>, b: Seq<usize>)
    requires
        ascending(a),
        ascending(b),
        a.to_set() == b.to_set(),
    ensures
        a == b,
    decreases a.len(),
{
    if a.len() == 0 {
        if b.len() > 0 {
            assert(b.to_set().contains(b[0]));
            assert(a.contains(b[0]));
        }
        assert(a =~= b);
    } else {
        let x = a.last();
        assert(a.to_set().contains(x)) by {
            assert(a[a.len() - 1] == x);
        }
        assert(b.contains(x));
        let k = choose|k: int| 0 <= k < b.len() && b[k] == x;
        let y = b.last();
        assert(b.to_set().contains(y)) by {
            assert(b[b.len() - 1] == y);
        }
        assert(a.contains(y));
        let l = choose|l: int| 0 <= l < a.len() && a[l] == y;
        assert(x == y) by {
            if k < b.len() - 1 {
                assert(b[k] < b[b.len() - 1]);
            }
            if l < a.len() - 1 {
                assert(a[l] < a[a.len() - 1]);
            }
        }
        let a1 = a.drop_last();
        let b1 = b.drop_last();
        assert forall|v: usize| a1.to_set().contains(v) <==> b1.to_set().contains(v) by {
            if a1.contains(v) {
                let i = choose|i: int| 0 <= i < a1.len() && a1[i] == v;
                assert(a[i] == v && a[i] < a[a.len() - 1]);
                assert(a.to_set().contains(v));
                assert(b.contains(v));
                let j = choose|j: int| 0 <= j < b.len() && b[j] == v;
                assert(b1[j] == v);
            }
            if b1.contains(v) {
                let i = choose|i: int| 0 <= i < b1.len() && b1[i] == v;
                assert(b[i] == v && b[i] < b[b.len() - 1]);
                assert(b.to_set().contains(v));
                assert(a.contains(v));
                let j = choose|j: int| 0 <= j < a.len() && a[j] == v;
                assert(a1[j] == v);
            }
        }
        assert(a1.to_set() =~= b1.to_set());
        lemma_ascending_same_set(a1, b1);
        assert(a =~= a1.push(x));
        assert(b =~= b1.push(y));
    }
}

/// Each block of `p` is a block of `q` when both have the same blocks as
/// sets.
proof fn lemma_block_found(p: Seq<Seq<usize>>, q: Seq<Seq<usize>>, n: nat, i: int) -> (j: int)
    requires
        canonical(p, n),
        canonical(q, n),
        block_sets(p) == block_sets(q),
        0 <= i < p.len(),
    ensures
        0 <= j < q.len(),
        q[j] == p[i],
{
    assert(block_sets(p).contains(p[i].to_set()));
    assert(block_sets(q).contains(p[i].to_set()));
    let j = choose|j: int| 0 <= j < q.len() && #[trigger] q[j].to_set() == p[i].to_set();
    lemma_ascending_same_set(q[j], p[i]);
    j
}

/// Partitions with the same blocks agree block by block.
proof fn lemma_blocks_in_place(p: Seq<Seq<usize>>, q: Seq<Seq<usize>>, n: nat, i: int)
    requires
        canonical(p, n),
        canonical(q, n),
        block_sets(p) == block_sets(q),
        0 <= i < p.len(),
    ensures
        i < q.len(),
        q[i] == p[i],
    decreases i,
{
    let j = lemma_block_found(p, q, n, i);
    if j < i {
        lemma_blocks_in_place(p, q, n, j);
        assert(p[j][0] < p[i][0]);
    } else if j > i {
        let g = lemma_block_found(q, p, n, i);
        assert(q[i][0] < q[j][0]);
        if g < i {
            lemma_blocks_in_place(p, q, n, g);
            assert(q[g][0] < q[i][0]);
        } else if g > i {
            assert(p[i][0] < p[g][0]);
        }
    }
}

/// A partition is known by its blocks as sets: two partitions with the same
/// sets as blocks are blocks in the same order.
pub proof fn lemma_same_blocks(p: Seq<Seq<usize>>, q: Seq<Seq<usize>>, n: nat)
    requires
        canonical(p, n),
        canonical(q, n),
        block_sets(p) == block_sets(q),
    ensures
        p == q,
{
    if p.len() > 0 {
        lemma_blocks_in_place(p, q, n, p.len() - 1);
    }
    if q.len() > 0 {
        lemma_blocks_in_place(q, p, n, q.len() - 1);
    }
    assert forall|i: int| 0 <= i < p.len() implies p[i] == q[i] by {
        lemma_blocks_in_place(p, q, n, i);
    }
    assert(p =~= q);
}

/// No two partitions that are handed out have the same blocks.
pub proof fn lemma_nth_distinct_blocks(n: nat, i: nat, j: nat)
    requires
        n <= usize::MAX,
        i != j,
        nth(n, i) is Some,
        nth(n, j) is Some,
    ensures
        block_sets(nth(n, i).unwrap()) != block_sets(nth(n, j).unwrap()),
{
    lemma_nth_canonical(n, i);
    lemma_nth_canonical(n, j);
    lemma_nth_distinct(n, i, j);
    if block_sets(nth(n, i).unwrap()) == block_sets(nth(n, j).unwrap()) {
        lemma_same_blocks(nth(n, i).unwrap(), nth(n, j).unwrap(), n);
    }
}

/// Whether `list` holds the partitions of `{1, ..., n}`, each once, in the
/// order of visiting.
pub open spec fn sorted_and_complete(list: Seq<Seq<Seq<usize>>>, n: nat) -> bool {
    &&& forall|i: int| 0 <= i < list.len() ==> canonical(#[trigger] list[i], n)
    &&& forall|i: int, j: int|
        0 <= i < j < list.len() ==> precedes(#[trigger] list[i], #[trigger] list[j])
    &&& forall|q: Seq<Seq<usize>>| #[trigger] canonical(q, n) ==> list.contains(q)
}

/// In a list of all partitions in the order of visiting, the partition at
/// place `i` is the one handed out at step `i`.
proof fn lemma_sorted_in_place(list: Seq<Seq<Seq<usize>>>, n: nat, i: int)
    requires
        n <= usize::MAX,
        sorted_and_complete(list, n),
        0 <= i < list.len(),
    ensures
        nth(n, i as nat) == Some(list[i]),
    decreases i,
{
    let c = list[i];
    lemma_count(n);
    lemma_all_visited(n, c);
    let y = choose|y: nat| y < count(n) && #[trigger] visits(n, y, c);
    if y < i {
        lemma_sorted_in_place(list, n, y as int);
        lemma_precedes_irreflexive(c);
    } else if y > i {
        assert(handed(n, y));
        lemma_nth_increasing(n, i as nat, y);
        let d = nth(n, i as nat).unwrap();
        lemma_nth_canonical(n, i as nat);
        assert(list.contains(d));
        let z = choose|z: int| 0 <= z < list.len() && list[z] == d;
        if z < i {
            lemma_sorted_in_place(list, n, z);
            lemma_nth_distinct(n, z as nat, i as nat);
        } else if z == i {
            lemma_nth_distinct(n, i as nat, y);
        } else {
            lemma_precedes_transitive(c, d, c);
            lemma_precedes_irreflexive(c);
        }
    }
}

/// A list that holds the partitions of `{1, ..., n}`, each once, in the order
/// of visiting, is the sequence that is handed out.
pub proof fn lemma_sorted_complete(list: Seq<Seq<Seq<usize>>>, n: nat)
    requires
        n <= usize::MAX,
        sorted_and_complete(list, n),
    ensures
        list.len() == count(n),
        list.len() == bell(n),
        forall|i: int| 0 <= i < list.len() ==> nth(n, i as nat) == Some(#[trigger] list[i]),
{
    lemma_count(n);
    lemma_count_is_bell(n);
    assert forall|i: int| 0 <= i < list.len() implies nth(n, i as nat) == Some(
        #[trigger] list[i],
    ) by {
        lemma_sorted_in_place(list, n, i);
    }
    if list.len() > count(n) {
        lemma_sorted_in_place(list, n, count(n) as int);
        assert(handed(n, count(n)));
    }
    if list.len() < count(n) {
        let i = list.len();
        assert(handed(n, i));
        let d = nth(n, i).unwrap();
        lemma_nth_canonical(n, i);
        assert(list.contains(d));
        let z = choose|z: int| 0 <= z < list.len() && list[z] == d;
        lemma_sorted_in_place(list, n, z);
        lemma_nth_distinct(n, z as nat, i);
    }
}

} // verus!
