//! The partitions of `{0, ..., n - 1}` made block by block: each block is
//! opened with the least element that is still free, and is then filled up
//! with greater free elements in every possible way. The partitions come out
//! in the order in which the successor engine visits them.

use crate::descent::{
    building, code, covered, free_count, lemma_building_facts, lemma_building_start,
    lemma_covered_all, lemma_covered_child, lemma_covered_head, lemma_covered_keep,
    lemma_covered_leaf, lemma_covered_skip, lemma_free_count_agree, lemma_free_exists,
    lemma_join, lemma_open_block, raised, raised_all,
};
use crate::laws::{bell, count, lemma_sorted_complete, nth};
use crate::lexico_stateless::{copy_blocks, put_last, take_last};
use crate::partition::{blocks, is_partition_from_zero};
use crate::search::{grow, shrink};
use vstd::prelude::*;

verus! {

/// The blocks of each partition in a list.
pub open spec fn shown(out: Seq<Vec<Vec<usize>>>) -> Seq<Seq<Seq<usize>>> {
    Seq::new(out.len(), |i: int| blocks(out[i]@))
}

/// Gathers the partitions that begin with the blocks in `prefix`, of which the
/// last may still grow by elements from `min_insert_index` on; `exclude`
/// marks the elements that the blocks hold, and all elements below
/// `start_index` are among them.
pub fn rec(
    prefix: &mut Vec<Vec<usize>>,
    n: usize,
    remaining_count: usize,
    exclude: &mut Vec<bool>,
    start_index: usize,
    min_insert_index: usize,
    out: &mut Vec<Vec<Vec<usize>>>,
)
    requires
        building(blocks(old(prefix)@), old(exclude)@, n as nat, remaining_count as nat),
        forall|i: int| 0 <= i < start_index && i < n ==> old(exclude)@[i],
        old(prefix)@.len() > 0 ==> min_insert_index == blocks(old(prefix)@).last().last() + 1,
    ensures
        blocks(final(prefix)@) == blocks(old(prefix)@),
        final(exclude)@ == old(exclude)@,
        final(out)@.len() > old(out)@.len(),
        forall|i: int|
            0 <= i < old(out)@.len() ==> shown(final(out)@)[i] == shown(old(out)@)[i],
        covered(
            shown(final(out)@),
            old(out)@.len() as int,
            final(out)@.len() as int,
            code(blocks(old(prefix)@)),
            n as nat,
            (n + 1) as nat,
        ),
    decreases remaining_count,
{
    let ghost p0 = blocks(prefix@);
    let ghost e0 = exclude@;
    let ghost outs0 = shown(out@);
    let ghost base = out@.len() as int;
    proof {
        lemma_building_facts(p0, e0, n as nat, remaining_count as nat);
    }
    if remaining_count == 0 {
        let copy = copy_blocks(prefix.as_slice());
        out.push(copy);
        proof {
            assert(shown(out@)[base] == p0);
            lemma_covered_leaf(shown(out@), base, p0, e0, n as nat, (n + 1) as nat);
        }
    } else {
        let mut i = start_index;
        proof {
            lemma_free_exists(e0, if start_index < n {
                start_index as nat
            } else {
                n as nat
            }, n as nat);
        }
        while exclude[i]
            invariant
                exclude@ == e0,
                e0.len() == n,
                forall|t: int| 0 <= t < i && t < n ==> e0[t],
                exists|t: int| 0 <= t < n && !e0[t],
                i < n,
            decreases n - i,
        {
            i += 1;
        }
        let start_index = i;
        proof {
            lemma_open_block(p0, e0, n as nat, remaining_count as nat, start_index);
        }
        let block = vec![start_index];
        proof {
            assert(block@ =~= seq![start_index]);
        }
        prefix.push(block);
        exclude[start_index] = true;
        proof {
            assert(blocks(prefix@) =~= p0.push(seq![start_index]));
            assert(blocks(prefix@).last() == seq![start_index]);
        }
        rec(prefix, n, remaining_count - 1, exclude, start_index + 1, start_index + 1, out);
        exclude[start_index] = false;
        let ghost grown = blocks(prefix@);
        prefix.pop();
        let ghost mid = out@.len() as int;
        proof {
            assert(blocks(prefix@) =~= grown.drop_last());
            assert(grown.drop_last() =~= p0);
            assert(exclude@ =~= e0);
            lemma_covered_head(
                shown(out@),
                base,
                mid,
                p0,
                e0,
                n as nat,
                remaining_count as nat,
                start_index,
            );
        }
        if !prefix.is_empty() {
            let mut i = min_insert_index;
            proof {
                lemma_covered_skip(
                    shown(out@),
                    base,
                    mid,
                    p0,
                    e0,
                    n as nat,
                    remaining_count as nat,
                    1,
                    (min_insert_index + 1) as nat,
                );
            }
            while i < n
                invariant
                    blocks(prefix@) == p0,
                    exclude@ == e0,
                    e0.len() == n,
                    p0.len() > 0,
                    p0.last().len() > 0,
                    remaining_count > 0,
                    start_index < n,
                    building(p0, e0, n as nat, remaining_count as nat),
                    forall|t: int| 0 <= t < start_index ==> e0[t],
                    !e0[start_index as int],
                    min_insert_index == p0.last().last() + 1,
                    min_insert_index <= i <= n,
                    0 <= base < out@.len(),
                    forall|j: int| 0 <= j < base ==> shown(out@)[j] == outs0[j],
                    covered(
                        shown(out@),
                        base,
                        out@.len() as int,
                        code(p0),
                        n as nat,
                        (i + 1) as nat,
                    ),
                decreases n - i,
            {
                if !exclude[i] {
                    proof {
                        lemma_join(p0, e0, n as nat, remaining_count as nat, i);
                    }
                    exclude[i] = true;
                    put_last(prefix, i);
                    let next_start = if i == start_index {
                        start_index + 1
                    } else {
                        start_index
                    };
                    let ghost before = shown(out@);
                    let ghost mid = out@.len() as int;
                    proof {
                        let q = blocks(prefix@);
                        assert(q.last() == p0.last().push(i));
                    }
                    rec(prefix, n, remaining_count - 1, exclude, next_start, i + 1, out);
                    let taken = take_last(prefix);
                    exclude[i] = false;
                    proof {
                        assert(blocks(prefix@) =~= p0) by {
                            assert(shrink(grow(p0, i)) =~= p0) by {
                                assert(p0.last().push(i).drop_last() =~= p0.last());
                            }
                        }
                        assert(exclude@ =~= e0);
                        lemma_covered_keep(
                            before,
                            shown(out@),
                            base,
                            mid,
                            code(p0),
                            n as nat,
                            (i + 1) as nat,
                        );
                        lemma_covered_child(
                            shown(out@),
                            base,
                            mid,
                            out@.len() as int,
                            p0,
                            e0,
                            n as nat,
                            remaining_count as nat,
                            i,
                        );
                    }
                } else {
                    proof {
                        lemma_covered_skip(
                            shown(out@),
                            base,
                            out@.len() as int,
                            p0,
                            e0,
                            n as nat,
                            remaining_count as nat,
                            (i + 1) as nat,
                            (i + 2) as nat,
                        );
                    }
                }
                i += 1;
            }
        } else {
            proof {
                lemma_covered_skip(
                    shown(out@),
                    base,
                    mid,
                    p0,
                    e0,
                    n as nat,
                    remaining_count as nat,
                    1,
                    (n + 1) as nat,
                );
            }
        }
    }
}

/// The partitions of `{0, ..., n - 1}`, each once, in the order in which the
/// successor engine visits the partitions of `{1, ..., n}`: as many as the
/// Bell number of `n` says.
pub fn gen_partitions(n: usize) -> (all: Vec<Vec<Vec<usize>>>)
    ensures
        all@.len() == count(n as nat),
        all@.len() == bell(n as nat),
        forall|j: int|
            0 <= j < all@.len() ==> nth(n as nat, j as nat) == Some(
                raised(blocks(#[trigger] all@[j]@)),
            ),
        forall|j: int|
            0 <= j < all@.len() ==> is_partition_from_zero(blocks(#[trigger] all@[j]@), n as nat),
{
    let mut prefix: Vec<Vec<usize>> = Vec::new();
    let mut exclude: Vec<bool> = Vec::new();
    let mut i: usize = 0;
    while i < n
        invariant
            i <= n,
            exclude@.len() == i,
            forall|t: int| 0 <= t < i ==> !exclude@[t],
            free_count(exclude@, i as nat) == i,
        decreases n - i,
    {
        let ghost before = exclude@;
        exclude.push(false);
        i += 1;
        proof {
            lemma_free_count_agree(before, exclude@, (i - 1) as nat);
        }
    }
    let mut all: Vec<Vec<Vec<usize>>> = Vec::new();
    proof {
        lemma_building_start(exclude@, n as nat);
        assert(blocks(prefix@) =~= Seq::<Seq<usize>>::empty());
    }
    rec(&mut prefix, n, n, &mut exclude, 0, 0, &mut all);
    proof {
        let outs = shown(all@);
        lemma_covered_all(outs, n as nat, (n + 1) as nat);
        lemma_sorted_complete(raised_all(outs), n as nat);
        assert forall|j: int| 0 <= j < all@.len() implies nth(n as nat, j as nat) == Some(
            raised(blocks(#[trigger] all@[j]@)),
        ) by {
            assert(raised_all(outs)[j] == raised(outs[j]));
        }
        assert forall|j: int| 0 <= j < all@.len() implies is_partition_from_zero(
            blocks(#[trigger] all@[j]@),
            n as nat,
        ) by {
            assert(outs[j] == blocks(all@[j]@));
        }
    }
    all
}

} // verus!
