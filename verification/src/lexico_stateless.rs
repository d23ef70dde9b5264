//! The partitions of `{1, ..., n}`, one after the other, each made from the
//! one before it in the same buffer.

use crate::bag::{lemma_bag_filled, lemma_bag_inserted, lemma_bag_removed, UnslottedItems};
use crate::laws::{
    bell, count, handed, lemma_count_is, lemma_count_is_bell, lemma_nth_below_bound,
    lemma_nth_canonical, lemma_successor_is, lemma_successor_or_last, nth,
};
use crate::partition::{
    ascending, blocks, canonical, is_last, is_successor, lemma_ground_unique,
    lemma_singletons_canonical, singletons,
};
use crate::rank::power;
use crate::search::{
    before_gap, grow, lemma_empty_last, lemma_track_drop, lemma_track_exhausted,
    lemma_track_found, lemma_track_gap_shut, lemma_track_give_up, lemma_track_head,
    lemma_track_short_only, lemma_track_split, lemma_track_start, lemma_track_state,
    lemma_track_strip, lemma_track_swap, place, shrink, singles, tracking,
};
use vstd::prelude::*;

verus! {

/// Takes the last element out of the last block.
pub(crate) fn take_last(p: &mut Vec<Vec<usize>>) -> (x: usize)
    requires
        old(p)@.len() > 0,
        blocks(old(p)@).last().len() > 0,
    ensures
        final(p)@.len() == old(p)@.len(),
        blocks(final(p)@) == shrink(blocks(old(p)@)),
        x == blocks(old(p)@).last().last(),
{
    let x = p.last_mut().unwrap().pop().unwrap();
    proof {
        assert(blocks(p@) =~= shrink(blocks(old(p)@)));
    }
    x
}

/// Puts `x` at the end of the last block.
pub(crate) fn put_last(p: &mut Vec<Vec<usize>>, x: usize)
    requires
        old(p)@.len() > 0,
    ensures
        final(p)@.len() == old(p)@.len(),
        blocks(final(p)@) == grow(blocks(old(p)@), x),
{
    p.last_mut().unwrap().push(x);
    proof {
        assert(blocks(p@) =~= grow(blocks(old(p)@), x));
    }
}

/// Puts the least suffix behind the blocks of `p`: one block for each element
/// of the bag, in ascending order. The bag is left empty.
pub fn append_minimum(p: &mut Vec<Vec<usize>>, unslotted: &mut UnslottedItems)
    ensures
        blocks(final(p)@) == blocks(old(p)@) + singles(old(unslotted)@),
        final(unslotted)@.len() == 0,
        final(unslotted).wf(),
{
    let items = unslotted.as_slice();
    let mut i: usize = 0;
    proof {
        assert(blocks(p@) =~= blocks(old(p)@) + singles(items@.take(0)));
    }
    while i < items.len()
        invariant
            i <= items@.len(),
            blocks(p@) == blocks(old(p)@) + singles(items@.take(i as int)),
        decreases items@.len() - i,
    {
        let ghost before = blocks(p@);
        let item = items[i];
        let block = vec![item];
        proof {
            assert(block@ =~= seq![item]);
        }
        p.push(block);
        i += 1;
        proof {
            assert(blocks(p@) =~= before.push(seq![item]));
            assert(before.push(seq![item]) =~= blocks(old(p)@) + singles(items@.take(i as int)));
        }
    }
    proof {
        assert(items@.take(i as int) == items@);
    }
    unslotted.clear();
}

/// Turns the partition in `p` into the one that is visited next, or tells
/// that there is none. With `true` the buffer holds the next partition and the
/// bag is empty again; with `false` the partition was the last one, and what
/// the buffer and the bag then hold has no meaning.
#[verifier::rlimit(60)]
pub fn increment(p: &mut Vec<Vec<usize>>, unslotted: &mut UnslottedItems) -> (more: bool)
    requires
        exists|n: nat| canonical(blocks(old(p)@), n),
        old(unslotted)@.len() == 0,
    ensures
        final(unslotted).wf(),
        more ==> final(unslotted)@.len() == 0,
        forall|n: nat|
            canonical(blocks(old(p)@), n) ==> (if more {
                is_successor(blocks(old(p)@), blocks(final(p)@), n)
            } else {
                is_last(blocks(old(p)@), n)
            }),
{
    let ghost p0 = blocks(p@);
    let ghost n = choose|n: nat| canonical(p0, n);
    proof {
        assert forall|m: nat| canonical(p0, m) implies m == n by {
            lemma_ground_unique(p0, n, m);
        }
    }
    if p.is_empty() {
        proof {
            lemma_empty_last(p0, n);
        }
        return false;
    }
    proof {
        lemma_track_start(p0, n);
        assert(unslotted@.to_set() =~= Set::<usize>::empty());
    }
    loop
        invariant
            p@.len() >= 1,
            p@.len() <= old(p)@.len(),
            unslotted.wf(),
            ascending(unslotted@),
            p0 == blocks(old(p)@),
            forall|m: nat| canonical(p0, m) ==> m == n,
            tracking(p0, n, blocks(p@), unslotted@.to_set(), place(blocks(p@)) + 1),
            blocks(p@).last().len() > 0,
            unslotted@.len() == 0 ==> blocks(p@) == p0,
            unslotted@.len() > 0 ==> before_gap(p0, blocks(p@)),
        decreases p@.len(),
    {
        let ghost pb = blocks(p@);
        let ghost bag = unslotted@;
        proof {
            lemma_track_state(p0, n, pb, bag.to_set(), place(pb) + 1);
            assert(pb.last() == p@.last()@);
        }
        if unslotted.is_empty() {
            proof {
                assert(bag.to_set() =~= Set::<usize>::empty());
            }
            if p.last().unwrap().len() < 3 {
                if p.len() <= 1 {
                    proof {
                        lemma_track_short_only(p0, n, place(pb) + 1);
                    }
                    p.clear();
                    return false;
                }
                unslotted.insert_all(p.last().unwrap().as_slice());
                p.pop();
                proof {
                    assert(bag =~= Seq::<usize>::empty());
                    lemma_bag_filled(pb.last(), unslotted@);
                    lemma_track_strip(p0, n, place(pb) + 1);
                    assert(blocks(p@) =~= pb.drop_last());
                }
            } else {
                let x = take_last(p);
                let y = take_last(p);
                unslotted.insert(y);
                put_last(p, x);
                proof {
                    assert(bag =~= Seq::<usize>::empty());
                    lemma_bag_inserted(bag, unslotted@, y);
                    lemma_track_split(p0, n, place(pb) + 1, unslotted@);
                }
                append_minimum(p, unslotted);
                return true;
            }
        } else {
            let t = *p.last().unwrap().last().unwrap();
            if let Some(x) = unslotted.pop_least_above(t) {
                put_last(p, x);
                proof {
                    let i = choose|i: int|
                        {
                            &&& 0 <= i < bag.len()
                            &&& bag[i] == x
                            &&& x >= t
                            &&& forall|j: int| 0 <= j < i ==> bag[j] < t
                            &&& unslotted@ == bag.remove(i)
                        };
                    lemma_track_found(p0, n, pb, bag, i);
                }
                append_minimum(p, unslotted);
                return true;
            } else {
                proof {
                    lemma_track_gap_shut(p0, n, pb, bag);
                    lemma_track_give_up(p0, n, pb, bag);
                }
                let last = take_last(p);
                unslotted.insert(last);
                proof {
                    lemma_bag_inserted(bag, unslotted@, last);
                }
                while p.last().unwrap().len() > 1
                    invariant
                        p@.len() == pb.len(),
                        p@.len() >= 1,
                        unslotted.wf(),
                        ascending(unslotted@),
                        unslotted@.len() > 0,
                        p0 == blocks(old(p)@),
                        forall|m: nat| canonical(p0, m) ==> m == n,
                        tracking(p0, n, blocks(p@), unslotted@.to_set(), place(blocks(p@))),
                    decreases blocks(p@).last().len(),
                {
                    let ghost pc = blocks(p@);
                    let ghost bc = unslotted@;
                    proof {
                        lemma_track_state(p0, n, pc, bc.to_set(), place(pc));
                        assert(pc.last() == p@.last()@);
                    }
                    let old_last = take_last(p);
                    let new_last = unslotted.pop_least_above(old_last);
                    let ghost bm = unslotted@;
                    unslotted.insert(old_last);
                    if let Some(new_last) = new_last {
                        put_last(p, new_last);
                        proof {
                            let i = choose|i: int|
                                {
                                    &&& 0 <= i < bc.len()
                                    &&& bc[i] == new_last
                                    &&& new_last >= old_last
                                    &&& forall|j: int| 0 <= j < i ==> bc[j] < old_last
                                    &&& bm == bc.remove(i)
                                };
                            lemma_bag_removed(bc, i);
                            lemma_bag_inserted(bm, unslotted@, old_last);
                            lemma_track_swap(p0, n, pc, bc, i, unslotted@);
                        }
                        append_minimum(p, unslotted);
                        return true;
                    }
                    proof {
                        lemma_bag_inserted(bc, unslotted@, old_last);
                        lemma_track_give_up(p0, n, pc, bc);
                    }
                }
                if p.last().unwrap().len() > 0 {
                    let ghost pc = blocks(p@);
                    let ghost bc = unslotted@;
                    proof {
                        lemma_track_state(p0, n, pc, bc.to_set(), place(pc));
                        assert(pc.last() == p@.last()@);
                    }
                    let first = take_last(p);
                    unslotted.insert(first);
                    proof {
                        lemma_bag_inserted(bc, unslotted@, first);
                        lemma_track_head(p0, n, pc, bc.to_set());
                    }
                }
                let ghost pe = blocks(p@);
                proof {
                    assert(pe.last() == p@.last()@);
                }
                if p.len() == 1 {
                    proof {
                        lemma_track_exhausted(p0, n, pe, unslotted@.to_set());
                    }
                    return false;
                }
                p.pop();
                proof {
                    lemma_track_drop(p0, n, pe, unslotted@.to_set());
                    assert(blocks(p@) =~= pe.drop_last());
                }
            }
        }
    }
}

/// The partitions of `{1, ..., n}` in the order in which they are visited,
/// handed out one at a time from a single buffer.
#[derive(Debug)]
pub struct LexicoPartitionIter {
    p: Option<Vec<Vec<usize>>>,
    ready: bool,
    unslotted: UnslottedItems,
}

impl LexicoPartitionIter {
    /// The partition that the buffer holds, if the sequence has not ended.
    pub closed spec fn current(&self) -> Option<Seq<Seq<usize>>> {
        match self.p {
            Some(p) => Some(blocks(p@)),
            None => None,
        }
    }

    /// Whether the partition in the buffer has yet to be handed out.
    pub closed spec fn fresh(&self) -> bool {
        self.ready
    }

    /// Between two calls the buffer holds a partition and the bag is empty.
    pub closed spec fn wf(&self) -> bool {
        &&& self.unslotted.wf()
        &&& self.p is Some ==> self.unslotted@.len() == 0 && exists|n: nat|
            canonical(blocks(self.p.unwrap()@), n)
    }

    /// Starts with the partition of `{1, ..., n}` into blocks of one element.
    pub fn new(n: usize) -> (iter: LexicoPartitionIter)
        ensures
            iter.wf(),
            iter.fresh(),
            iter.current() == Some(singletons(n as nat)),
    {
        let mut p: Vec<Vec<usize>> = Vec::with_capacity(n);
        let mut i: usize = 0;
        while i < n
            invariant
                i <= n,
                blocks(p@) == singletons(i as nat),
            decreases n - i,
        {
            let ghost before = blocks(p@);
            let block = vec![i + 1];
            proof {
                assert(block@ =~= seq![(i + 1) as usize]);
            }
            p.push(block);
            i += 1;
            proof {
                assert(blocks(p@) =~= before.push(seq![i]));
                assert(singletons(i as nat) =~= singletons((i - 1) as nat).push(seq![i]));
            }
        }
        let p = Some(p);
        let ready = true;
        let unslotted = UnslottedItems::new(n);
        proof {
            lemma_singletons_canonical(n as nat);
        }
        LexicoPartitionIter { p, ready, unslotted }
    }

    /// Hands out the next partition of the sequence, or `None` once the
    /// sequence has ended. The first call hands out the partition that `new`
    /// made; each later call makes the next partition in the buffer.
    pub fn next(&mut self) -> (item: Option<&[Vec<usize>]>)
        requires
            old(self).wf(),
        ensures
            final(self).wf(),
            final(self).fresh() == (old(self).current() is None && old(self).fresh()),
            match item {
                Some(view) => final(self).current() == Some(blocks(view@)),
                None => final(self).current() is None,
            },
            old(self).current() is None ==> final(self).current() is None,
            old(self).current() is Some && old(self).fresh() ==> final(self).current() == old(
                self,
            ).current(),
            old(self).current() is Some && !old(self).fresh() ==> forall|n: nat|
                canonical(old(self).current().unwrap(), n) ==> (match final(self).current() {
                    Some(q) => is_successor(old(self).current().unwrap(), q, n),
                    None => is_last(old(self).current().unwrap(), n),
                }),
    {
        if let Some(mut p) = self.p.take() {
            if !self.ready {
                if increment(&mut p, &mut self.unslotted) {
                    self.p = Some(p);
                } else {
                    self.p = None;
                }
            } else {
                self.p = Some(p);
            }
            self.ready = false;
            match &self.p {
                Some(p) => Some(p.as_slice()),
                None => None,
            }
        } else {
            None
        }
    }
}

/// A copy of the blocks in `p`.
pub(crate) fn copy_blocks(p: &[Vec<usize>]) -> (copy: Vec<Vec<usize>>)
    ensures
        blocks(copy@) == blocks(p@),
{
    let mut copy: Vec<Vec<usize>> = Vec::with_capacity(p.len());
    let mut i: usize = 0;
    while i < p.len()
        invariant
            i <= p@.len(),
            copy@.len() == i,
            forall|j: int| 0 <= j < i ==> (#[trigger] copy@[j])@ == p@[j]@,
        decreases p@.len() - i,
    {
        let block = p[i].clone();
        proof {
            assert(block@ =~= p@[i as int]@);
        }
        copy.push(block);
        i += 1;
    }
    proof {
        assert(blocks(copy@) =~= blocks(p@));
    }
    copy
}

/// All partitions of `{1, ..., n}`, each once, in the order in which they are
/// visited: as many as the Bell number of `n` says.
pub fn gen_partitions(n: usize) -> (all: Vec<Vec<Vec<usize>>>)
    ensures
        all@.len() == count(n as nat),
        all@.len() == bell(n as nat),
        forall|i: int|
            0 <= i < all@.len() ==> nth(n as nat, i as nat) == Some(blocks(#[trigger] all@[i]@)),
        forall|i: int| 0 <= i < all@.len() ==> canonical(blocks(#[trigger] all@[i]@), n as nat),
{
    let mut all: Vec<Vec<Vec<usize>>> = Vec::new();
    let mut iter = LexicoPartitionIter::new(n);
    let ghost bound = power((n + 1) as nat, (2 * n) as nat);
    loop
        invariant_except_break
            iter.wf(),
            iter.fresh() ==> all@.len() == 0 && iter.current() == nth(n as nat, 0),
            !iter.fresh() ==> all@.len() >= 1 && iter.current() == nth(
                n as nat,
                (all@.len() - 1) as nat,
            ),
            all@.len() <= bound,
        invariant
            bound == power((n + 1) as nat, (2 * n) as nat),
            forall|i: int|
                0 <= i < all@.len() ==> nth(n as nat, i as nat) == Some(
                    blocks(#[trigger] all@[i]@),
                ),
        ensures
            all@.len() == count(n as nat),
            forall|i: int|
                0 <= i < all@.len() ==> nth(n as nat, i as nat) == Some(
                    blocks(#[trigger] all@[i]@),
                ),
        decreases bound - all@.len(),
    {
        let ghost j = all@.len();
        let ghost before = iter.current();
        let ghost was_fresh = iter.fresh();
        proof {
            if !was_fresh {
                assert(nth(n as nat, (j - 1) as nat) == Some(blocks(all@[j - 1]@)));
                lemma_nth_canonical(n as nat, (j - 1) as nat);
                lemma_successor_or_last(before.unwrap(), n as nat);
            }
        }
        match iter.next() {
            Some(p) => {
                let copy = copy_blocks(p);
                proof {
                    if !was_fresh {
                        lemma_successor_is(before.unwrap(), blocks(p@), n as nat);
                    }
                    assert(nth(n as nat, j) == Some(blocks(copy@)));
                    lemma_nth_below_bound(n as nat, j);
                }
                all.push(copy);
            },
            None => {
                proof {
                    assert(nth(n as nat, j) is None);
                    assert(!handed(n as nat, j));
                    assert forall|i: nat| i < j implies #[trigger] handed(n as nat, i) by {
                        assert(nth(n as nat, i) == Some(blocks(all@[i as int]@)));
                    }
                    lemma_count_is(n as nat, j);
                }
                break;
            },
        }
    }
    proof {
        lemma_count_is_bell(n as nat);
        assert forall|i: int| 0 <= i < all@.len() implies canonical(
            blocks(#[trigger] all@[i]@),
            n as nat,
        ) by {
            assert(nth(n as nat, i as nat) == Some(blocks(all@[i]@)));
            lemma_nth_canonical(n as nat, i as nat);
        }
    }
    all
}

} // verus!
