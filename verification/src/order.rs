//! The lexicographic order on codes, and where in a code the next greater
//! code can part from it.

use crate::encoding::code_ok;
use crate::partition::{less_at, lex_less};
use vstd::prelude::*;

verus! {

/// Whether `a` and `b` both have `k` entries at least and agree on the first
/// `k`.
pub open spec fn agree(a: Seq<usize>, b: Seq<usize>, k: int) -> bool {
    &&& k <= a.len()
    &&& k <= b.len()
    &&& forall|i: int| 0 <= i < k ==> a[i] == b[i]
}

/// Whether no code for `n` that agrees with `w` on the first `k` entries comes
/// after `w`.
pub closed spec fn closed_beyond(w: Seq<usize>, n: nat, k: int) -> bool {
    forall|q: Seq<usize>| #[trigger] code_ok(q, n) && agree(w, q, k) ==> !lex_less(w, q)
}

/// Whether `c` could stand at place `k` of a code for `n` that agrees with `w`
/// before that place and is greater there: `c` is not used before `k`, and is
/// greater than both the entry of `w` at `k` and the entry before it.
pub open spec fn candidate(w: Seq<usize>, n: nat, k: int, c: usize) -> bool {
    &&& 1 <= c <= n
    &&& forall|s: int| 0 <= s < k ==> w[s] != c
    &&& c > w[k]
    &&& k >= 1
    &&& w[k - 1] != 0
    &&& c > w[k - 1]
}

/// Whether each element of `x` from place `k` on stands directly behind a
/// separator, as the only element of its block.
pub open spec fn lone_from(x: Seq<usize>, k: int) -> bool {
    &&& forall|e: int| k <= e < x.len() && #[trigger] x[e] != 0 ==> e >= 1
    &&& forall|e: int, d: int|
        k <= e < x.len() && d == e - 1 && d >= 0 && #[trigger] x[e] != 0 ==> #[trigger] x[d] == 0
}

/// No sequence comes before itself.
pub proof fn lemma_lex_irreflexive(a: Seq<usize>)
    ensures
        !lex_less(a, a),
{
}

/// What comes before something that comes before a third, comes before the
/// third.
pub proof fn lemma_lex_transitive(a: Seq<usize>, b: Seq<usize>, c: Seq<usize>)
    requires
        lex_less(a, b),
        lex_less(b, c),
    ensures
        lex_less(a, c),
{
    let k = choose|k: int| less_at(a, b, k);
    let l = choose|l: int| less_at(b, c, l);
    if k <= l {
        assert(less_at(a, c, k));
    } else {
        assert(less_at(a, c, l));
    }
}

/// Two sequences that agree on `k` entries and are not equal are ordered.
proof fn lemma_lex_total_from(a: Seq<usize>, b: Seq<usize>, k: int)
    requires
        0 <= k,
        agree(a, b, k),
        a != b,
    ensures
        lex_less(a, b) || lex_less(b, a),
    decreases a.len() - k,
{
    if k == a.len() {
        if k == b.len() {
            assert(a =~= b);
        } else {
            assert(less_at(a, b, k));
        }
    } else if k == b.len() {
        assert(less_at(b, a, k));
    } else if a[k] < b[k] {
        assert(less_at(a, b, k));
    } else if b[k] < a[k] {
        assert(less_at(b, a, k));
    } else {
        lemma_lex_total_from(a, b, k + 1);
    }
}

/// Of two different sequences one comes before the other.
pub proof fn lemma_lex_total(a: Seq<usize>, b: Seq<usize>)
    ensures
        a == b || lex_less(a, b) || lex_less(b, a),
{
    if a != b {
        lemma_lex_total_from(a, b, 0);
    }
}

/// A code for `n` is no proper beginning of another code for `n`.
pub proof fn lemma_no_longer_code(a: Seq<usize>, b: Seq<usize>, n: nat)
    requires
        code_ok(a, n),
        code_ok(b, n),
        agree(a, b, a.len() as int),
    ensures
        a == b,
{
    if b.len() > a.len() {
        let u = b.len() - 1;
        let v = b[u];
        if v != 0 {
            assert(a.contains(v));
            let s = choose|s: int| 0 <= s < a.len() && a[s] == v;
            assert(b[s] == b[u]);
        }
    }
    assert(a =~= b);
}

/// No code for `n` that agrees with `w` throughout comes after `w`.
pub proof fn lemma_closed_at_end(w: Seq<usize>, n: nat)
    requires
        code_ok(w, n),
    ensures
        closed_beyond(w, n, w.len() as int),
{
    assert forall|q: Seq<usize>| #[trigger] code_ok(q, n) && agree(w, q, w.len() as int) implies !lex_less(
        w,
        q,
    ) by {
        lemma_no_longer_code(w, q, n);
        lemma_lex_irreflexive(w);
    }
}

/// No code agrees with `w` on more entries than `w` has.
pub proof fn lemma_closed_past_end(w: Seq<usize>, n: nat, k: int)
    requires
        k > w.len(),
    ensures
        closed_beyond(w, n, k),
{
}

/// A code that no code comes after, whatever it agrees on, is the last.
pub proof fn lemma_closed_throughout(w: Seq<usize>, q: Seq<usize>, n: nat)
    requires
        closed_beyond(w, n, 0),
        code_ok(q, n),
    ensures
        !lex_less(w, q),
{
    assert(agree(w, q, 0));
}

/// Where a code `q` first exceeds the code `w`, it holds a candidate.
pub proof fn lemma_candidate(w: Seq<usize>, q: Seq<usize>, n: nat, k: int)
    requires
        code_ok(w, n),
        code_ok(q, n),
        0 <= k < w.len(),
        k < q.len(),
        agree(w, q, k),
        w[k] < q[k],
    ensures
        candidate(w, n, k, q[k]),
{
    let c = q[k];
    assert forall|s: int| 0 <= s < k implies w[s] != c by {
        if w[s] == c {
            assert(q[s] == q[k]);
        }
    }
    if k == 0 {
        assert(q[0] == 0);
    } else {
        let t = k - 1;
        assert(q[t] == w[t]);
        if w[t] == 0 {
            // both go on with the first element of a block, which is the least
            // element not yet used
            let y = w[k];
            assert(y != 0);
            assert(q.contains(y));
            let g = choose|g: int| 0 <= g < q.len() && q[g] == y;
            if g < k {
                assert(w[g] == w[k]);
            } else {
                assert(g > k);
                assert(q[k] < q[g]);
            }
        } else {
            assert(q[t] < q[k]);
        }
    }
}

/// If no candidate can stand at place `k`, what holds beyond `k` holds from
/// `k` on.
pub proof fn lemma_close_place(w: Seq<usize>, n: nat, k: int)
    requires
        code_ok(w, n),
        0 <= k < w.len(),
        closed_beyond(w, n, k + 1),
        forall|c: usize| !candidate(w, n, k, c),
    ensures
        closed_beyond(w, n, k),
{
    assert forall|q: Seq<usize>| #[trigger] code_ok(q, n) && agree(w, q, k) implies !lex_less(
        w,
        q,
    ) by {
        if lex_less(w, q) {
            let d = choose|d: int| less_at(w, q, d);
            if d < k {
                assert(w[d] == q[d]);
            } else if d == k {
                lemma_candidate(w, q, n, k);
            } else {
                assert(agree(w, q, k + 1));
            }
        }
    }
}

/// A code that, from place `k` on, opens a new block for each element is not
/// greater than any code for `n` that agrees with it before `k`.
pub proof fn lemma_tail_least(x: Seq<usize>, q: Seq<usize>, n: nat, k: int)
    requires
        code_ok(x, n),
        code_ok(q, n),
        0 <= k,
        agree(x, q, k),
        lone_from(x, k),
    ensures
        !lex_less(q, x),
{
    if lex_less(q, x) {
        let e = choose|e: int| less_at(q, x, e);
        if e == q.len() {
            lemma_no_longer_code(q, x, n);
        } else {
            if e < k {
                assert(x[e] == q[e]);
            }
            let d = e - 1;
            assert(x[e] != 0);
            assert(d >= 0);
            assert(x[d] == 0);
            assert(q[d] == 0);
            let v = q[e];
            assert(v != 0);
            assert(x.contains(v));
            let f = choose|f: int| 0 <= f < x.len() && x[f] == v;
            if f < e {
                assert(q[f] == q[e]);
            } else if f > e {
                assert(x[e] < x[f]);
            }
        }
    }
}

/// The code that agrees with `w` before place `k`, holds the least candidate
/// there, and opens a new block for each element behind it, is the first code
/// after `w`.
pub proof fn lemma_next_code(w: Seq<usize>, x: Seq<usize>, n: nat, k: int)
    requires
        code_ok(w, n),
        code_ok(x, n),
        0 <= k < w.len(),
        k < x.len(),
        agree(w, x, k),
        w[k] < x[k],
        closed_beyond(w, n, k + 1),
        forall|c: usize| candidate(w, n, k, c) ==> x[k] <= c,
        lone_from(x, k + 1),
    ensures
        lex_less(w, x),
        forall|q: Seq<usize>| #[trigger] code_ok(q, n) && lex_less(w, q) ==> !lex_less(q, x),
{
    assert(less_at(w, x, k));
    assert forall|q: Seq<usize>| #[trigger] code_ok(q, n) && lex_less(w, q) implies !lex_less(
        q,
        x,
    ) by {
        let d = choose|d: int| less_at(w, q, d);
        if d > k {
            assert(agree(w, q, k + 1));
        } else if d < k {
            if lex_less(q, x) {
                let e = choose|e: int| less_at(q, x, e);
                if e < d {
                    assert(w[e] == q[e]);
                    assert(w[e] == x[e]);
                } else if e == d {
                    assert(w[d] == x[d]);
                } else {
                    assert(q[d] == x[d]);
                    assert(w[d] == x[d]);
                }
            }
        } else {
            lemma_candidate(w, q, n, k);
            if q[k] == x[k] {
                assert(agree(x, q, k + 1));
                lemma_tail_least(x, q, n, k + 1);
            } else if lex_less(q, x) {
                let e = choose|e: int| less_at(q, x, e);
                if e < k {
                    assert(w[e] == q[e]);
                    assert(w[e] == x[e]);
                } else if e > k {
                    assert(q[k] == x[k]);
                }
            }
        }
    }
}

} // verus!
