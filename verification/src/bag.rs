//! A sorted pool of elements that are, for the moment, in no block.

use crate::partition::ascending;
use vstd::multiset::Multiset;
use vstd::prelude::*;

verus! {

/// Whether `s` is in ascending order; equal neighbours are allowed.
pub open spec fn sorted(s: Seq<usize>) -> bool {
    forall|i: int, j: int| 0 <= i <= j < s.len() ==> s[i] <= s[j]
}

/// A sorted sequence in which nothing occurs twice is strictly ascending.
proof fn lemma_sorted_once(s: Seq<usize>)
    requires
        sorted(s),
        forall|v: usize| s.to_multiset().count(v) <= 1,
    ensures
        ascending(s),
{
    broadcast use vstd::multiset::group_multiset_axioms;

    s.lemma_multiset_has_no_duplicates_conv();
}

/// In a strictly ascending sequence nothing occurs twice.
proof fn lemma_ascending_once(s: Seq<usize>)
    requires
        ascending(s),
    ensures
        forall|v: usize| s.to_multiset().count(v) <= 1,
{
    broadcast use vstd::multiset::group_multiset_axioms;

    assert(s.no_duplicates());
    s.lemma_multiset_has_no_duplicates();
}

/// What a strictly ascending pool holds after an element that it did not
/// hold has been added in order.
pub proof fn lemma_bag_inserted(before: Seq<usize>, after: Seq<usize>, x: usize)
    requires
        ascending(before),
        !before.contains(x),
        sorted(after),
        after.to_multiset() == before.to_multiset().insert(x),
    ensures
        ascending(after),
        after.to_set() == before.to_set().insert(x),
{
    broadcast use vstd::multiset::group_multiset_axioms;

    before.to_multiset_ensures();
    after.to_multiset_ensures();
    lemma_ascending_once(before);
    assert forall|v: usize| after.to_multiset().count(v) <= 1 by {
        assert(before.to_multiset().count(v) <= 1);
        assert(before.contains(v) <==> before.to_multiset().count(v) > 0);
    }
    lemma_sorted_once(after);
    assert forall|v: usize| after.to_set().contains(v) <==> before.to_set().insert(x).contains(
        v,
    ) by {
        assert(before.contains(v) <==> before.to_multiset().count(v) > 0);
        assert(after.contains(v) <==> after.to_multiset().count(v) > 0);
    }
    assert(after.to_set() =~= before.to_set().insert(x));
}

/// What a strictly ascending pool holds after one entry has been taken out.
pub proof fn lemma_bag_removed(before: Seq<usize>, k: int)
    requires
        ascending(before),
        0 <= k < before.len(),
    ensures
        ascending(before.remove(k)),
        before.remove(k).to_set() == before.to_set().remove(before[k]),
{
    let after = before.remove(k);
    assert forall|v: usize| after.to_set().contains(v) <==> before.to_set().remove(
        before[k],
    ).contains(v) by {
        if after.contains(v) {
            let i = choose|i: int| 0 <= i < after.len() && after[i] == v;
            if i < k {
                assert(before[i] == v);
            } else {
                assert(before[i + 1] == v);
            }
        }
        if before.contains(v) && v != before[k] {
            let i = choose|i: int| 0 <= i < before.len() && before[i] == v;
            if i < k {
                assert(after[i] == v);
            } else {
                assert(after[i - 1] == v);
            }
        }
    }
    assert(after.to_set() =~= before.to_set().remove(before[k]));
}

/// What an empty pool holds after the elements of a block have been added.
pub proof fn lemma_bag_filled(block: Seq<usize>, after: Seq<usize>)
    requires
        ascending(block),
        sorted(after),
        after.to_multiset() == Seq::<usize>::empty().to_multiset().add(block.to_multiset()),
    ensures
        ascending(after),
        after.to_set() == block.to_set(),
{
    broadcast use vstd::multiset::group_multiset_axioms;

    Seq::<usize>::empty().to_multiset_ensures();
    vstd::multiset::lemma_multiset_empty_len(Seq::<usize>::empty().to_multiset());
    block.to_multiset_ensures();
    after.to_multiset_ensures();
    lemma_ascending_once(block);
    assert forall|v: usize| after.to_multiset().count(v) <= 1 by {
        assert(block.to_multiset().count(v) <= 1);
    }
    lemma_sorted_once(after);
    assert forall|v: usize| after.to_set().contains(v) <==> block.to_set().contains(v) by {
        assert(block.contains(v) <==> block.to_multiset().count(v) > 0);
        assert(after.contains(v) <==> after.to_multiset().count(v) > 0);
    }
    assert(after.to_set() =~= block.to_set());
}

/// The place of `x` in the sorted sequence `s`: behind all entries that are
/// not greater than `x`.
pub open spec fn slot(s: Seq<usize>, x: usize) -> int
    decreases s.len(),
{
    if s.len() == 0 || s.last() <= x {
        s.len() as int
    } else {
        slot(s.drop_last(), x)
    }
}

/// The sorted sequence `s` with `x` put at its place.
pub open spec fn put(s: Seq<usize>, x: usize) -> Seq<usize> {
    s.insert(slot(s, x), x)
}

/// The sorted sequence `s` with the entries of `items` put at their places,
/// one after the other.
pub open spec fn put_all(s: Seq<usize>, items: Seq<usize>) -> Seq<usize>
    decreases items.len(),
{
    if items.len() == 0 {
        s
    } else {
        put(put_all(s, items.drop_last()), items.last())
    }
}

/// Before its place in a sorted sequence nothing is greater than `x`, and
/// from there on everything is.
pub proof fn lemma_slot(s: Seq<usize>, x: usize)
    requires
        sorted(s),
    ensures
        0 <= slot(s, x) <= s.len(),
        forall|i: int| 0 <= i < slot(s, x) ==> s[i] <= x,
        forall|i: int| slot(s, x) <= i < s.len() ==> s[i] > x,
    decreases s.len(),
{
    if s.len() > 0 && s.last() > x {
        let r = s.drop_last();
        assert forall|i: int, j: int| 0 <= i <= j < r.len() implies r[i] <= r[j] by {
            assert(s[i] <= s[j]);
        }
        lemma_slot(r, x);
        assert forall|i: int| 0 <= i < slot(s, x) implies s[i] <= x by {
            assert(r[i] <= x);
        }
        assert forall|i: int| slot(s, x) <= i < s.len() implies s[i] > x by {
            if i < r.len() {
                assert(r[i] > x);
            }
        }
    } else if s.len() > 0 {
        assert forall|i: int| 0 <= i < s.len() implies s[i] <= x by {
            assert(s[i] <= s[s.len() - 1]);
        }
    }
}

/// A sorted sequence that holds what `s` holds and `x` besides is `s` with
/// `x` put at its place.
proof fn lemma_sorted_insert(s: Seq<usize>, t: Seq<usize>, x: usize)
    requires
        sorted(s),
        sorted(t),
        t.to_multiset() == s.to_multiset().insert(x),
    ensures
        t == s.insert(slot(s, x), x),
{
    broadcast use vstd::seq_lib::to_multiset_insert;

    let k = slot(s, x);
    let y = s.insert(k, x);
    lemma_slot(s, x);
    let leq = |a: usize, b: usize| a <= b;
    assert(vstd::relations::total_ordering(leq));
    assert(vstd::relations::sorted_by(t, leq));
    assert(vstd::relations::sorted_by(y, leq)) by {
        assert forall|i: int, j: int| 0 <= i < j < y.len() implies #[trigger] leq(y[i], y[j]) by {
            if j < k {
                assert(y[i] == s[i] && y[j] == s[j]);
            } else if j == k {
                assert(y[i] == s[i]);
            } else if i < k {
                assert(y[i] == s[i] && y[j] == s[j - 1]);
            } else if i == k {
                assert(y[j] == s[j - 1]);
            } else {
                assert(y[i] == s[i - 1] && y[j] == s[j - 1]);
            }
        }
    }
    assert(y.to_multiset() == s.to_multiset().insert(x));
    vstd::seq_lib::lemma_sorted_unique(t, y, leq);
}

/// Exchanging two entries of a sequence keeps what it holds.
proof fn lemma_swap_keeps_multiset(s: Seq<usize>, t: Seq<usize>, i: int, j: int)
    requires
        0 <= i < s.len(),
        0 <= j < s.len(),
        t == s.update(i, s[j]).update(j, s[i]),
    ensures
        t.to_multiset() == s.to_multiset(),
{
    broadcast use vstd::seq_lib::to_multiset_update;
    broadcast use vstd::multiset::group_multiset_axioms;

    let m = s.to_multiset();
    let u = s.update(i, s[j]);
    assert(u.to_multiset() == m.insert(s[j]).remove(s[i]));
    assert(t.to_multiset() == u.to_multiset().insert(s[i]).remove(u[j]));
    s.to_multiset_ensures();
    assert(m.count(s[i]) > 0 && m.count(s[j]) > 0) by {
        assert(s.contains(s[i]));
        assert(s.contains(s[j]));
    }
    assert(t.to_multiset() =~= m);
}

/// Sorts `items` by insertion, given that its first `sorted_prefix` entries
/// are in order already: each later entry is moved left past every larger
/// one. The entries are rearranged, never changed.
pub fn sort_tail(items: &mut [usize], sorted_prefix: usize)
    ensures
        final(items)@.to_multiset() == old(items)@.to_multiset(),
        final(items)@.len() == old(items)@.len(),
        sorted_prefix >= old(items)@.len() ==> final(items)@ == old(items)@,
        sorted_prefix <= old(items)@.len() && sorted(old(items)@.take(sorted_prefix as int))
            ==> sorted(final(items)@),
{
    let n = items.len();
    let ghost in_order = sorted_prefix <= n && sorted(items@.take(sorted_prefix as int));
    let mut j = sorted_prefix;
    while j < n
        invariant
            items@.len() == n,
            n == old(items)@.len(),
            sorted_prefix <= j,
            sorted_prefix >= n ==> items@ == old(items)@,
            items@.to_multiset() == old(items)@.to_multiset(),
            in_order ==> j <= n && sorted(items@.take(j as int)),
        decreases n - j,
    {
        let mut i = j;
        proof {
            if in_order {
                assert forall|a: int, b: int| 0 <= a <= b <= j && a != i && b != i implies items@[a]
                    <= items@[b] by {
                    assert(items@.take(j as int)[a] <= items@.take(j as int)[b]);
                }
            }
        }
        while i >= 1
            invariant_except_break
                in_order ==> (forall|a: int, b: int|
                    0 <= a <= b <= j && a != i && b != i ==> items@[a] <= items@[b]),
                in_order ==> (forall|b: int| i < b <= j ==> items@[i as int] < items@[b]),
            invariant
                items@.len() == n,
                i <= j < n,
                items@.to_multiset() == old(items)@.to_multiset(),
            ensures
                in_order ==> sorted(items@.take(j + 1)),
            decreases i,
        {
            if items[i - 1] <= items[i] {
                break;
            }
            let ghost before = items@;
            let a = items[i - 1];
            let b = items[i];
            items[i - 1] = b;
            items[i] = a;
            proof {
                lemma_swap_keeps_multiset(before, items@, i - 1, i as int);
            }
            i -= 1;
        }
        j += 1;
    }
    proof {
        if in_order {
            assert(items@.take(n as int) == items@);
        }
    }
}

/// The elements that are in no block, kept in ascending order.
#[derive(Debug)]
pub struct UnslottedItems {
    items: Vec<usize>,
}

impl View for UnslottedItems {
    type V = Seq<usize>;

    closed spec fn view(&self) -> Seq<usize> {
        self.items@
    }
}

impl UnslottedItems {
    /// The order invariant: what is held is in ascending order.
    pub open spec fn wf(&self) -> bool {
        sorted(self@)
    }

    /// An empty pool with room for `n` elements.
    pub fn new(n: usize) -> (bag: UnslottedItems)
        ensures
            bag@ == Seq::<usize>::empty(),
            bag.wf(),
    {
        let items = Vec::with_capacity(n);
        UnslottedItems { items }
    }

    /// Whether nothing is held.
    pub fn is_empty(&self) -> (empty: bool)
        ensures
            empty == (self@.len() == 0),
    {
        self.items.is_empty()
    }

    /// The largest element held, which is the last one.
    pub fn max(&self) -> (top: Option<usize>)
        requires
            self.wf(),
        ensures
            top == (if self@.len() == 0 {
                None
            } else {
                Some(self@.last())
            }),
            forall|i: int| 0 <= i < self@.len() ==> self@[i] <= top.unwrap(),
    {
        match self.items.last() {
            Some(x) => Some(*x),
            None => None,
        }
    }

    /// What is held, in ascending order.
    pub fn as_slice(&self) -> (held: &[usize])
        ensures
            held@ == self@,
    {
        self.items.as_slice()
    }

    /// Adds `item` at its place in the order.
    pub fn insert(&mut self, item: usize)
        requires
            old(self).wf(),
        ensures
            final(self).wf(),
            final(self)@ == put(old(self)@, item),
            final(self)@.to_multiset() == old(self)@.to_multiset().insert(item),
            final(self)@.len() == old(self)@.len() + 1,
    {
        let sorted_size = self.items.len();
        let ghost before = self.items@;
        self.items.push(item);
        proof {
            before.to_multiset_ensures();
            assert(self.items@.take(sorted_size as int) == before);
        }
        sort_tail(self.items.as_mut_slice(), sorted_size);
        proof {
            lemma_sorted_insert(before, self.items@, item);
        }
    }

    /// Adds every entry of `items`, one after the other.
    pub fn insert_all(&mut self, items: &[usize])
        requires
            old(self).wf(),
        ensures
            final(self).wf(),
            final(self)@ == put_all(old(self)@, items@),
            final(self)@.to_multiset() == old(self)@.to_multiset().add(items@.to_multiset()),
            final(self)@.len() == old(self)@.len() + items@.len(),
    {
        let mut k: usize = 0;
        proof {
            broadcast use vstd::multiset::group_multiset_axioms;

            assert(items@.take(0) == Seq::<usize>::empty());
            Seq::<usize>::empty().to_multiset_ensures();
            vstd::multiset::lemma_multiset_empty_len(Seq::<usize>::empty().to_multiset());
            assert(Seq::<usize>::empty().to_multiset() =~= Multiset::<usize>::empty());
            assert(self@.to_multiset().add(Multiset::<usize>::empty()) =~= self@.to_multiset());
        }
        while k < items.len()
            invariant
                k <= items@.len(),
                self.wf(),
                self@ == put_all(old(self)@, items@.take(k as int)),
                self@.to_multiset() == old(self)@.to_multiset().add(
                    items@.take(k as int).to_multiset(),
                ),
                self@.len() == old(self)@.len() + k,
            decreases items@.len() - k,
        {
            proof {
                items@.take(k as int).to_multiset_ensures();
                assert(items@.take(k + 1) == items@.take(k as int).push(items@[k as int]));
                assert(items@.take(k + 1).drop_last() == items@.take(k as int));
            }
            self.insert(items[k]);
            k += 1;
        }
        proof {
            assert(items@.take(k as int) == items@);
        }
    }

    /// Takes out the first element that is not below `n`, which is the least
    /// one above `n` whenever `n` itself is not held. Nothing is taken when no
    /// element is above `n`.
    pub fn pop_least_above(&mut self, n: usize) -> (found: Option<usize>)
        requires
            old(self).wf(),
        ensures
            final(self).wf(),
            found is None <==> (forall|i: int| 0 <= i < old(self)@.len() ==> old(self)@[i] <= n),
            found is None ==> final(self)@ == old(self)@,
            found matches Some(x) ==> exists|k: int|
                {
                    &&& 0 <= k < old(self)@.len()
                    &&& old(self)@[k] == x
                    &&& x >= n
                    &&& forall|i: int| 0 <= i < k ==> old(self)@[i] < n
                    &&& final(self)@ == old(self)@.remove(k)
                },
            found matches Some(x) ==> (x > n || old(self)@.contains(n)),
    {
        if let Some(max) = self.max() {
            if max <= n {
                return None;
            }
        } else {
            return None;
        }
        let mut index: usize = 0;
        while self.items[index] < n
            invariant
                self.items@ == old(self)@,
                self.wf(),
                0 <= index < self.items.len(),
                self.items@.last() > n,
                forall|i: int| 0 <= i < index ==> self.items@[i] < n,
            decreases self.items@.len() - index,
        {
            assert(self.items@[index as int] < n);
            index += 1;
        }
        let x = self.items.remove(index);
        proof {
            assert(old(self)@[index as int] == x);
            if x == n {
                assert(old(self)@.contains(n));
            }
        }
        Some(x)
    }

    /// Lets go of everything that is held.
    pub fn clear(&mut self)
        ensures
            final(self)@ == Seq::<usize>::empty(),
            final(self).wf(),
    {
        self.items.clear();
    }
}

} // verus!
