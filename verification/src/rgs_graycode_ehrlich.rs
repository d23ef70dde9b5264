//! The restricted growth strings of length `n` as a Gray code: from one
//! string to the next a single part number changes. The last part number
//! runs up or down in turns, and steps around from the greatest to `0`.

use crate::partition::blocks;
use crate::restricted_growth::{
    extensions, lemma_empty_multiset, lemma_grown, lemma_limit_push, lemma_limit_small,
    lemma_span_first, lemma_span_last, limit, restricted, span,
};
use vstd::prelude::*;

verus! {

/// Hands `f` back as it is.
pub fn wrap_fn<F>(f: F) -> (g: F)
    ensures
        g == f,
{
    f
}

/// Puts `x` at the end of `p`, gathers the strings that begin with that, and
/// takes `x` off again.
fn with_next(
    n: usize,
    m: usize,
    x: usize,
    p: &mut Vec<usize>,
    up: &mut Vec<bool>,
    out: &mut Vec<Vec<usize>>,
)
    requires
        1 <= old(p)@.len() < n,
        old(up)@.len() == n,
        restricted(old(p)@),
        m + 1 == limit(old(p)@, old(p)@.len()),
        x <= m + 1,
    ensures
        final(p)@ == old(p)@,
        final(up)@.len() == n,
        final(out)@.len() >= old(out)@.len(),
        blocks(final(out)@).take(old(out)@.len() as int) == blocks(old(out)@),
        blocks(final(out)@).skip(old(out)@.len() as int).to_multiset() == extensions(
            n as nat,
            old(p)@.push(x),
        ).to_multiset(),
    decreases n - old(p)@.len(), 0nat,
{
    proof {
        lemma_limit_push(p@, x);
        lemma_limit_small(p@, p@.len());
    }
    let ghost before = p@;
    p.push(x);
    if x == m + 1 {
        rgs_graycode_helper(n, m + 1, p, up, out);
    } else {
        rgs_graycode_helper(n, m, p, up, out);
    }
    p.pop();
    proof {
        assert(p@ =~= before);
    }
}

/// Gathers the restricted growth strings of length `n` that begin with `p`,
/// whose greatest part number is `m`. Each length has a flag in `up` that
/// tells in which direction the next part number runs, and that is turned
/// over after each run.
pub fn rgs_graycode_helper(
    n: usize,
    m: usize,
    p: &mut Vec<usize>,
    up: &mut Vec<bool>,
    out: &mut Vec<Vec<usize>>,
)
    requires
        1 <= old(p)@.len() <= n,
        old(up)@.len() == n,
        restricted(old(p)@),
        m + 1 == limit(old(p)@, old(p)@.len()),
    ensures
        final(p)@ == old(p)@,
        final(up)@.len() == n,
        final(out)@.len() >= old(out)@.len(),
        blocks(final(out)@).take(old(out)@.len() as int) == blocks(old(out)@),
        blocks(final(out)@).skip(old(out)@.len() as int).to_multiset() == extensions(
            n as nat,
            old(p)@,
        ).to_multiset(),
    decreases n - old(p)@.len(), 1nat,
{
    let ghost start = blocks(out@);
    let ghost base = out@.len() as int;
    let ghost pv = p@;
    let k = p.len();
    if k == n {
        let copy = p.clone();
        proof {
            assert(copy@ =~= pv);
        }
        out.push(copy);
        proof {
            assert(blocks(out@).take(base) =~= start);
            assert(blocks(out@).skip(base) =~= seq![pv]);
        }
        return ;
    }
    proof {
        lemma_limit_small(pv, pv.len());
    }
    let was_up = up[k];
    if was_up {
        let mut i: usize = 1;
        proof {
            assert(blocks(out@).take(base) =~= start);
            lemma_empty_multiset();
            assert(blocks(out@).skip(base) =~= Seq::<Seq<usize>>::empty());
            assert(span(n as nat, pv, 1, 1) =~= Seq::<Seq<usize>>::empty());
        }
        while i <= m
            invariant
                1 <= i <= m + 1,
                k == pv.len(),
                pv == old(p)@,
                1 <= k < n,
                m < n,
                p@ == pv,
                up@.len() == n,
                restricted(pv),
                m + 1 == limit(pv, pv.len()),
                0 <= base <= out@.len(),
                blocks(out@).take(base) == start,
                blocks(out@).skip(base).to_multiset() == span(
                    n as nat,
                    pv,
                    1,
                    i as nat,
                ).to_multiset(),
            decreases m + 1 - i,
        {
            let ghost before = blocks(out@);
            with_next(n, m, i, p, up, out);
            i += 1;
            proof {
                lemma_grown(before, blocks(out@), base);
                lemma_span_last(n as nat, pv, 1, i as nat);
                assert(blocks(out@).skip(base).to_multiset() =~= span(
                    n as nat,
                    pv,
                    1,
                    i as nat,
                ).to_multiset());
            }
        }
        let ghost before = blocks(out@);
        with_next(n, m, m + 1, p, up, out);
        proof {
            lemma_grown(before, blocks(out@), base);
            lemma_span_last(n as nat, pv, 1, (m + 2) as nat);
        }
        let ghost before = blocks(out@);
        with_next(n, m, 0, p, up, out);
        proof {
            lemma_grown(before, blocks(out@), base);
            lemma_span_first(n as nat, pv, 0, (m + 2) as nat);
            assert(blocks(out@).skip(base).to_multiset() =~= span(
                n as nat,
                pv,
                0,
                (m + 2) as nat,
            ).to_multiset());
        }
    } else {
        with_next(n, m, 0, p, up, out);
        proof {
            lemma_grown(start, blocks(out@), base);
            assert(start.take(base) =~= start);
        }
        let ghost before = blocks(out@);
        with_next(n, m, m + 1, p, up, out);
        let ghost low = extensions(n as nat, pv.push(0usize)).to_multiset();
        proof {
            lemma_grown(before, blocks(out@), base);
            lemma_span_last(n as nat, pv, (m + 1) as nat, (m + 2) as nat);
            lemma_empty_multiset();
            assert(span(n as nat, pv, (m + 1) as nat, (m + 1) as nat) =~= Seq::<
                Seq<usize>,
            >::empty());
            assert(blocks(out@).skip(base).to_multiset() =~= low.add(
                span(n as nat, pv, (m + 1) as nat, (m + 2) as nat).to_multiset(),
            ));
        }
        let mut i: usize = m + 1;
        while i > 1
            invariant
                1 <= i <= m + 1,
                k == pv.len(),
                pv == old(p)@,
                1 <= k < n,
                p@ == pv,
                up@.len() == n,
                restricted(pv),
                m + 1 == limit(pv, pv.len()),
                0 <= base <= out@.len(),
                blocks(out@).take(base) == start,
                low == extensions(n as nat, pv.push(0usize)).to_multiset(),
                blocks(out@).skip(base).to_multiset() == low.add(
                    span(n as nat, pv, i as nat, (m + 2) as nat).to_multiset(),
                ),
            decreases i,
        {
            i -= 1;
            let ghost before = blocks(out@);
            with_next(n, m, i, p, up, out);
            proof {
                lemma_grown(before, blocks(out@), base);
                lemma_span_first(n as nat, pv, i as nat, (m + 2) as nat);
                assert(blocks(out@).skip(base).to_multiset() =~= low.add(
                    span(n as nat, pv, i as nat, (m + 2) as nat).to_multiset(),
                ));
            }
        }
        proof {
            lemma_span_first(n as nat, pv, 0, (m + 2) as nat);
        }
    }
    up[k] = !was_up;
}

/// All restricted growth strings of length `n`, each once.
pub fn rgs_graycode(n: usize) -> (all: Vec<Vec<usize>>)
    ensures
        blocks(all@).to_multiset() == extensions(n as nat, Seq::empty()).to_multiset(),
        all@.len() == extensions(n as nat, Seq::empty()).len(),
{
    let mut all: Vec<Vec<usize>> = Vec::new();
    let mut p: Vec<usize> = Vec::with_capacity(n);
    if n == 0 {
        all.push(p);
        proof {
            assert(blocks(all@) =~= extensions(0, Seq::empty()));
        }
    } else {
        p.push(0);
        let mut up: Vec<bool> = Vec::new();
        let mut i: usize = 0;
        while i < n
            invariant
                i <= n,
                up@.len() == i,
            decreases n - i,
        {
            up.push(false);
            i += 1;
        }
        proof {
            let first = Seq::<usize>::empty().push(0usize);
            assert(p@ =~= first);
            assert(limit(first, 0) == 0);
            assert forall|j: nat| j < first.len() implies first[j as int] <= #[trigger] limit(
                first,
                j,
            ) by {}
            assert(limit(first, 1) == 1);
        }
        rgs_graycode_helper(n, 0, &mut p, &mut up, &mut all);
        proof {
            let none = Seq::<usize>::empty();
            assert(blocks(all@).skip(0) =~= blocks(all@));
            assert(span(n as nat, none, 0, 0) =~= Seq::<Seq<usize>>::empty());
            assert(extensions(n as nat, none) =~= extensions(n as nat, none.push(0usize)));
            blocks(all@).to_multiset_ensures();
            extensions(n as nat, none).to_multiset_ensures();
        }
    }
    proof {
        blocks(all@).to_multiset_ensures();
        extensions(n as nat, Seq::empty()).to_multiset_ensures();
    }
    all
}

} // verus!
