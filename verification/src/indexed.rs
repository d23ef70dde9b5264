//! Partitions of `{0, ..., n - 1}` given by the number of the part that each
//! element lies in.

use crate::partition::{ascending, blocks, is_partition_from_zero, placed};
use vstd::prelude::*;

verus! {

/// What an `IndexedPartition` stands for: `index[i]` is the number of the
/// part that holds element `i`, and `part_count` parts are in use.
pub struct Indexed {
    pub part_count: nat,
    pub index: Seq<usize>,
}

/// A partition given by the part number of each element.
#[derive(Debug)]
pub struct IndexedPartition {
    pub part_count: usize,
    pub index: Vec<usize>,
}

impl View for IndexedPartition {
    type V = Indexed;

    open spec fn view(&self) -> Indexed {
        Indexed { part_count: self.part_count as nat, index: self.index@ }
    }
}

/// Whether every element lies in a part that is in use, and every part in
/// use holds an element.
pub open spec fn well_indexed(m: Indexed) -> bool {
    &&& forall|i: int| 0 <= i < m.index.len() ==> #[trigger] m.index[i] < m.part_count
    &&& forall|c: usize| c < m.part_count ==> m.index.contains(c)
}

impl IndexedPartition {
    /// No element and no part, with room for `n` elements.
    pub fn with_capacity(n: usize) -> (ip: IndexedPartition)
        ensures
            ip@ == (Indexed { part_count: 0, index: Seq::empty() }),
    {
        IndexedPartition { part_count: 0, index: Vec::with_capacity(n) }
    }

    /// Back to no element and no part.
    pub fn clear(&mut self)
        ensures
            final(self)@ == (Indexed { part_count: 0, index: Seq::empty() }),
    {
        self.part_count = 0;
        self.index.clear();
    }
}

impl IndexedPartition {
    /// All `n` elements in part `0`, with no part counted yet.
    pub fn new(n: usize) -> (ip: IndexedPartition)
        ensures
            ip@ == (Indexed { part_count: 0, index: Seq::new(n as nat, |i: int| 0usize) }),
    {
        let mut index: Vec<usize> = Vec::with_capacity(n);
        let mut i: usize = 0;
        while i < n
            invariant
                i <= n,
                index@ == Seq::new(i as nat, |i: int| 0usize),
            decreases n - i,
        {
            index.push(0);
            i += 1;
            proof {
                assert(index@ =~= Seq::new(i as nat, |i: int| 0usize));
            }
        }
        IndexedPartition { part_count: 0, index }
    }
}

/// What a list of indexed partitions stands for.
pub open spec fn views(list: Seq<IndexedPartition>) -> Seq<Indexed> {
    Seq::new(list.len(), |i: int| list[i]@)
}

/// The elements among the first `upto` that lie in part `c`, in ascending
/// order.
pub open spec fn members(index: Seq<usize>, c: usize, upto: nat) -> Seq<usize>
    decreases upto,
{
    if upto == 0 {
        Seq::empty()
    } else if index[upto - 1] == c {
        members(index, c, (upto - 1) as nat).push((upto - 1) as usize)
    } else {
        members(index, c, (upto - 1) as nat)
    }
}

/// The parts of `m`, each as the list of its elements.
pub open spec fn parts(m: Indexed) -> Seq<Seq<usize>> {
    Seq::new(m.part_count, |c: int| members(m.index, c as usize, m.index.len()))
}

/// Writes an indexed partition out as its parts.
pub fn to_parts(ip: &IndexedPartition) -> (p: Vec<Vec<usize>>)
    requires
        well_indexed(ip@),
    ensures
        blocks(p@) == parts(ip@),
{
    let n = ip.index.len();
    let mut p: Vec<Vec<usize>> = Vec::new();
    let mut c: usize = 0;
    while c < ip.part_count
        invariant
            c <= ip.part_count,
            p@.len() == c,
            forall|d: int| 0 <= d < c ==> (#[trigger] p@[d])@.len() == 0,
        decreases ip.part_count - c,
    {
        p.push(Vec::new());
        c += 1;
    }
    let mut i: usize = 0;
    while i < n
        invariant
            i <= n,
            n == ip.index@.len(),
            well_indexed(ip@),
            p@.len() == ip.part_count,
            forall|d: int|
                0 <= d < p@.len() ==> (#[trigger] p@[d])@ == members(ip.index@, d as usize, i as nat),
        decreases n - i,
    {
        let part = ip.index[i];
        let ghost before = p@;
        proof {
            assert(ip@.index[i as int] < ip@.part_count);
        }
        p[part].push(i);
        i += 1;
        proof {
            assert forall|d: int| 0 <= d < p@.len() implies (#[trigger] p@[d])@ == members(
                ip.index@,
                d as usize,
                i as nat,
            ) by {
                assert(before[d]@ == members(ip.index@, d as usize, (i - 1) as nat));
                if d == part {
                    assert(p@[d]@ == before[d]@.push((i - 1) as usize));
                } else {
                    assert(p@[d] == before[d]);
                }
            }
        }
    }
    proof {
        assert(blocks(p@) =~= parts(ip@));
    }
    p
}

/// What the list of the members of a part holds: the elements that lie in
/// the part, in ascending order.
pub proof fn lemma_members(index: Seq<usize>, c: usize, upto: nat)
    requires
        upto <= index.len(),
        upto <= usize::MAX,
    ensures
        ascending(members(index, c, upto)),
        forall|j: int|
            0 <= j < members(index, c, upto).len() ==> (#[trigger] members(index, c, upto)[j])
                < upto && index[members(index, c, upto)[j] as int] == c,
        forall|i: int|
            0 <= i < upto && index[i] == c ==> members(index, c, upto).contains(i as usize),
    decreases upto,
{
    if upto > 0 {
        let before = members(index, c, (upto - 1) as nat);
        let now = members(index, c, upto);
        lemma_members(index, c, (upto - 1) as nat);
        if index[upto - 1] == c {
            assert(now[before.len() as int] == (upto - 1) as usize);
            assert forall|i: int| 0 <= i < upto && index[i] == c implies now.contains(
                i as usize,
            ) by {
                if i < upto - 1 {
                    let j = choose|j: int| 0 <= j < before.len() && before[j] == i as usize;
                    assert(now[j] == i as usize);
                }
            }
        }
    }
}

/// The parts of an indexed partition in which every part is in use are a
/// partition of the elements.
pub proof fn lemma_parts_partition(m: Indexed)
    requires
        well_indexed(m),
        m.index.len() <= usize::MAX,
        m.part_count <= usize::MAX,
    ensures
        is_partition_from_zero(parts(m), m.index.len()),
{
    let p = parts(m);
    let n = m.index.len();
    assert forall|c: int| 0 <= c < p.len() implies (#[trigger] p[c]).len() > 0 && ascending(
        p[c],
    ) by {
        lemma_members(m.index, c as usize, n);
        assert(m.index.contains(c as usize));
        let i = choose|i: int| 0 <= i < m.index.len() && m.index[i] == c as usize;
        assert(p[c].contains(i as usize));
    }
    assert forall|c: int, j: int| 0 <= c < p.len() && 0 <= j < p[c].len() implies #[trigger] p[c][j]
        < n by {
        lemma_members(m.index, c as usize, n);
    }
    assert forall|c: int, j: int, d: int, l: int|
        0 <= c < p.len() && 0 <= j < p[c].len() && 0 <= d < p.len() && 0 <= l < p[d].len()
            && #[trigger] p[c][j] == #[trigger] p[d][l] implies c == d && j == l by {
        lemma_members(m.index, c as usize, n);
        lemma_members(m.index, d as usize, n);
        assert(m.index[p[c][j] as int] == c);
        assert(m.index[p[d][l] as int] == d);
        if j < l {
            assert(p[c][j] < p[c][l]);
        }
        if l < j {
            assert(p[c][l] < p[c][j]);
        }
    }
    assert forall|v: usize| v < n implies placed(p, v) by {
        let c = m.index[v as int];
        assert(c < m.part_count);
        lemma_members(m.index, c, n);
        assert(p[c as int].contains(v));
        let j = choose|j: int| 0 <= j < p[c as int].len() && p[c as int][j] == v;
        assert(p[c as int][j] == v);
    }
}

} // verus!
