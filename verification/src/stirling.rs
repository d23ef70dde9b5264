//! The partitions of `{0, ..., n - 1}` grouped by their number of parts, as
//! the Stirling numbers of the second kind count them.

use crate::indexed::{
    lemma_parts_partition, parts, to_parts, views, well_indexed, Indexed, IndexedPartition,
};
use crate::partition::{blocks, is_partition_from_zero};
use vstd::prelude::*;

verus! {

/// One step that adds an element to a partition.
#[derive(Debug, Clone, Copy)]
pub enum Augmentation {
    /// The new element forms a part of its own.
    AddSingleton,
    /// The new element joins the part of the given number.
    InsertAt(usize),
}

/// Whether `op` can be carried out on `m`.
pub open spec fn applicable(op: Augmentation, m: Indexed) -> bool {
    match op {
        Augmentation::AddSingleton => m.part_count < usize::MAX,
        Augmentation::InsertAt(k) => k < m.part_count,
    }
}

/// What `op` makes of `m`.
pub open spec fn augmented(op: Augmentation, m: Indexed) -> Indexed {
    match op {
        Augmentation::AddSingleton => Indexed {
            part_count: m.part_count + 1,
            index: m.index.push(m.part_count as usize),
        },
        Augmentation::InsertAt(k) => Indexed { part_count: m.part_count, index: m.index.push(k) },
    }
}

impl Augmentation {
    /// The step in which the new element forms a part of its own.
    pub fn add_singleton() -> (op: Augmentation)
        ensures
            op == Augmentation::AddSingleton,
    {
        Augmentation::AddSingleton
    }

    /// The step in which the new element joins part `k`.
    pub fn insert_at(k: usize) -> (op: Augmentation)
        ensures
            op == Augmentation::InsertAt(k),
    {
        Augmentation::InsertAt(k)
    }

    /// Carries the step out on `ip`.
    pub fn apply(&self, ip: &mut IndexedPartition)
        requires
            applicable(*self, old(ip)@),
        ensures
            final(ip)@ == augmented(*self, old(ip)@),
    {
        match *self {
            Augmentation::AddSingleton => {
                ip.index.push(ip.part_count);
                ip.part_count += 1;
            },
            Augmentation::InsertAt(k) => {
                ip.index.push(k);
            },
        }
    }
}

/// What the steps `ops` make of `m`, carried out from the last to the first.
pub open spec fn augmented_by(ops: Seq<Augmentation>, m: Indexed) -> Indexed
    decreases ops.len(),
{
    if ops.len() == 0 {
        m
    } else {
        augmented_by(ops.drop_last(), augmented(ops.last(), m))
    }
}

/// Whether the steps `ops` can be carried out on `m`, from the last to the
/// first.
pub open spec fn all_applicable(ops: Seq<Augmentation>, m: Indexed) -> bool
    decreases ops.len(),
{
    ops.len() > 0 ==> applicable(ops.last(), m) && all_applicable(
        ops.drop_last(),
        augmented(ops.last(), m),
    )
}

/// Whether the steps `ops` fit a partition into `k` parts: carried out from
/// the last to the first, each names a part that is in use by then.
pub open spec fn steps_fit(ops: Seq<Augmentation>, k: nat) -> bool
    decreases ops.len(),
{
    ops.len() > 0 ==> match ops.last() {
        Augmentation::AddSingleton => steps_fit(ops.drop_last(), k + 1),
        Augmentation::InsertAt(i) => i < k && steps_fit(ops.drop_last(), k),
    }
}

/// Steps that fit can be carried out, and each adds one element.
pub proof fn lemma_steps_apply(ops: Seq<Augmentation>, m: Indexed)
    requires
        steps_fit(ops, m.part_count),
        m.part_count <= m.index.len(),
        m.index.len() + ops.len() <= usize::MAX,
        well_indexed(m),
    ensures
        all_applicable(ops, m),
        augmented_by(ops, m).index.len() == m.index.len() + ops.len(),
        augmented_by(ops, m).part_count <= augmented_by(ops, m).index.len(),
        well_indexed(augmented_by(ops, m)),
    decreases ops.len(),
{
    if ops.len() > 0 {
        let op = ops.last();
        let next = augmented(op, m);
        assert(well_indexed(next)) by {
            assert forall|c: usize| c < next.part_count implies next.index.contains(c) by {
                if c < m.part_count {
                    assert(m.index.contains(c));
                    let i = choose|i: int| 0 <= i < m.index.len() && m.index[i] == c;
                    assert(next.index[i] == c);
                } else {
                    assert(next.index[m.index.len() as int] == c);
                }
            }
        }
        lemma_steps_apply(ops.drop_last(), next);
    }
}

/// The steps that lead from a partition into parts of one element each to the
/// partition being made, the first step to be carried out on top.
#[derive(Debug)]
pub struct AugmentationStack {
    pub ops: Vec<Augmentation>,
}

impl View for AugmentationStack {
    type V = Seq<Augmentation>;

    open spec fn view(&self) -> Seq<Augmentation> {
        self.ops@
    }
}

impl AugmentationStack {
    /// A stack without steps.
    pub fn new() -> (ops: AugmentationStack)
        ensures
            ops@ == Seq::<Augmentation>::empty(),
    {
        let ops = Vec::new();
        AugmentationStack { ops }
    }

    /// Puts `op` on top.
    pub fn push(&mut self, op: Augmentation)
        ensures
            final(self)@ == old(self)@.push(op),
    {
        self.ops.push(op);
    }

    /// Takes the top step off; an empty stack stays empty.
    pub fn pop(&mut self)
        ensures
            final(self)@ == (if old(self)@.len() > 0 {
                old(self)@.drop_last()
            } else {
                old(self)@
            }),
    {
        self.ops.pop();
    }

    /// Carries out all steps on `ip`, from the top of the stack down.
    pub fn apply(&self, ip: &mut IndexedPartition)
        requires
            all_applicable(self@, old(ip)@),
        ensures
            final(ip)@ == augmented_by(self@, old(ip)@),
    {
        let mut i = self.ops.len();
        proof {
            assert(self@.take(i as int) == self@);
        }
        while i > 0
            invariant
                i <= self@.len(),
                all_applicable(self@.take(i as int), ip@),
                augmented_by(self@.take(i as int), ip@) == augmented_by(self@, old(ip)@),
            decreases i,
        {
            let ghost before = self@.take(i as int);
            i -= 1;
            proof {
                assert(before.drop_last() == self@.take(i as int));
                assert(before.last() == self@[i as int]);
            }
            self.ops[i].apply(ip);
        }
        proof {
            assert(self@.take(0).len() == 0);
        }
    }
}

/// The partition of `n` elements into `n` parts.
pub open spec fn discrete(n: nat) -> Indexed {
    Indexed { part_count: n, index: Seq::new(n, |i: int| i as usize) }
}

/// The partitions that `stirling_partitions` reaches from `n`, `k` and the
/// steps gathered so far, in the order in which it reaches them.
pub open spec fn rows(n: nat, k: nat, ops: Seq<Augmentation>) -> Seq<Indexed>
    decreases n, 1nat, 0nat,
{
    if n == k {
        seq![augmented_by(ops, discrete(n))]
    } else if 0 < k < n {
        rows((n - 1) as nat, (k - 1) as nat, ops.push(Augmentation::AddSingleton)) + rows_joined(
            n,
            k,
            ops,
            k,
        )
    } else {
        Seq::empty()
    }
}

/// The partitions reached by letting the last element join one of the first
/// `upto` parts.
pub open spec fn rows_joined(n: nat, k: nat, ops: Seq<Augmentation>, upto: nat) -> Seq<Indexed>
    decreases n, 0nat, upto,
{
    if n == 0 || upto == 0 {
        Seq::empty()
    } else {
        rows_joined(n, k, ops, (upto - 1) as nat) + rows(
            (n - 1) as nat,
            k,
            ops.push(Augmentation::InsertAt((upto - 1) as usize)),
        )
    }
}

/// The Stirling number of the second kind: in how many ways `n` elements can
/// be put into `k` parts.
pub open spec fn stirling(n: nat, k: nat) -> nat
    decreases n,
{
    if n == k {
        1
    } else if 0 < k < n {
        stirling((n - 1) as nat, (k - 1) as nat) + k * stirling((n - 1) as nat, k)
    } else {
        0
    }
}

/// The sum of the Stirling numbers of `n` for fewer than `upto` parts.
pub open spec fn stirling_sum(n: nat, upto: nat) -> nat
    decreases upto,
{
    if upto == 0 {
        0
    } else {
        stirling_sum(n, (upto - 1) as nat) + stirling(n, (upto - 1) as nat)
    }
}

/// The number of partitions of a set of `n` elements, as the sum of the
/// Stirling numbers of `n`.
pub open spec fn bell(n: nat) -> nat {
    stirling_sum(n, n + 1)
}

/// `stirling_partitions` reaches as many partitions as the Stirling number
/// says.
pub proof fn lemma_rows_len(n: nat, k: nat, ops: Seq<Augmentation>)
    ensures
        rows(n, k, ops).len() == stirling(n, k),
    decreases n, 1nat, 0nat,
{
    if n == k {
    } else if 0 < k < n {
        lemma_rows_len((n - 1) as nat, (k - 1) as nat, ops.push(Augmentation::AddSingleton));
        lemma_rows_joined_len(n, k, ops, k);
    }
}

/// Letting the last element join one of `upto` parts reaches `upto` times as
/// many partitions as there are of the elements before it.
pub proof fn lemma_rows_joined_len(n: nat, k: nat, ops: Seq<Augmentation>, upto: nat)
    requires
        n > 0,
    ensures
        rows_joined(n, k, ops, upto).len() == upto * stirling((n - 1) as nat, k),
    decreases n, 0nat, upto,
{
    if upto > 0 {
        lemma_rows_joined_len(n, k, ops, (upto - 1) as nat);
        lemma_rows_len((n - 1) as nat, k, ops.push(Augmentation::InsertAt((upto - 1) as usize)));
        let s = stirling((n - 1) as nat, k);
        assert((upto - 1) * s + s == upto * s) by (nonlinear_arith);
    } else {
        assert(0 * stirling((n - 1) as nat, k) == 0) by (nonlinear_arith);
    }
}

/// Each partition that `stirling_partitions` reaches has `n` elements more
/// than there are steps, lying in parts that are all in use.
pub proof fn lemma_rows_well_indexed(n: nat, k: nat, ops: Seq<Augmentation>, j: int)
    requires
        steps_fit(ops, k),
        n + ops.len() <= usize::MAX,
        0 <= j < rows(n, k, ops).len(),
    ensures
        well_indexed(rows(n, k, ops)[j]),
        rows(n, k, ops)[j].index.len() == n + ops.len(),
    decreases n, 1nat, 0nat,
{
    if n == k {
        let start = discrete(n);
        assert(well_indexed(start)) by {
            assert forall|c: usize| c < start.part_count implies start.index.contains(c) by {
                assert(start.index[c as int] == c);
            }
        }
        lemma_steps_apply(ops, start);
    } else if 0 < k < n {
        let op = Augmentation::AddSingleton;
        let first = rows((n - 1) as nat, (k - 1) as nat, ops.push(op));
        if j < first.len() {
            assert(ops.push(op).drop_last() =~= ops);
            lemma_rows_well_indexed((n - 1) as nat, (k - 1) as nat, ops.push(op), j);
        } else {
            lemma_rows_joined_well_indexed(n, k, ops, k, j - first.len());
        }
    }
}

/// Each partition reached by letting the last element join a part has `n`
/// elements more than there are steps, lying in parts that are all in use.
pub proof fn lemma_rows_joined_well_indexed(
    n: nat,
    k: nat,
    ops: Seq<Augmentation>,
    upto: nat,
    j: int,
)
    requires
        n > 0,
        upto <= k,
        steps_fit(ops, k),
        n + ops.len() <= usize::MAX,
        0 <= j < rows_joined(n, k, ops, upto).len(),
    ensures
        well_indexed(rows_joined(n, k, ops, upto)[j]),
        rows_joined(n, k, ops, upto)[j].index.len() == n + ops.len(),
    decreases n, 0nat, upto,
{
    if upto > 0 {
        let before = rows_joined(n, k, ops, (upto - 1) as nat);
        let op = Augmentation::InsertAt((upto - 1) as usize);
        if j < before.len() {
            lemma_rows_joined_well_indexed(n, k, ops, (upto - 1) as nat, j);
        } else {
            assert(ops.push(op).drop_last() =~= ops);
            lemma_rows_well_indexed((n - 1) as nat, k, ops.push(op), j - before.len());
        }
    }
}

/// Makes, one after the other, each partition of `n` elements into `k` parts,
/// carries out the gathered steps on it, and puts a copy of what comes out at
/// the end of `out`.
pub fn stirling_partitions(
    n: usize,
    k: usize,
    ops: &mut AugmentationStack,
    ip: &mut IndexedPartition,
    out: &mut Vec<IndexedPartition>,
)
    requires
        steps_fit(old(ops)@, k as nat),
        n + old(ops)@.len() <= usize::MAX,
    ensures
        final(ops)@ == old(ops)@,
        views(final(out)@) == views(old(out)@) + rows(n as nat, k as nat, old(ops)@),
    decreases n, 1nat, 0nat,
{
    if n == k {
        ip.clear();
        let mut i: usize = 0;
        while i < n
            invariant
                i <= n,
                ip@.part_count == 0,
                ip@.index == Seq::new(i as nat, |i: int| i as usize),
            decreases n - i,
        {
            ip.index.push(i);
            i += 1;
            proof {
                assert(ip@.index =~= Seq::new(i as nat, |i: int| i as usize));
            }
        }
        ip.part_count = n;
        proof {
            let start = discrete(n as nat);
            assert(ip@ == start);
            assert(well_indexed(start)) by {
                assert forall|c: usize| c < start.part_count implies start.index.contains(c) by {
                    assert(start.index[c as int] == c);
                }
            }
            lemma_steps_apply(ops@, start);
        }
        ops.apply(ip);
        let copy = IndexedPartition { part_count: ip.part_count, index: ip.index.clone() };
        let ghost before = views(out@);
        out.push(copy);
        proof {
            assert(copy@.index =~= ip@.index);
            assert(views(out@) =~= before.push(ip@));
            assert(before.push(ip@) =~= before + rows(n as nat, k as nat, ops@));
        }
    } else if k > 0 && k <= n {
        let ghost base = ops@;
        let ghost start = views(out@);
        proof {
            assert(base.push(Augmentation::AddSingleton).drop_last() =~= base);
        }
        ops.push(Augmentation::add_singleton());
        stirling_partitions(n - 1, k - 1, ops, ip, out);
        ops.pop();
        proof {
            assert(ops@ =~= base);
        }
        let ghost first = views(out@);
        let mut i: usize = 0;
        while i < k
            invariant
                i <= k,
                0 < k < n,
                ops@ == base,
                steps_fit(base, k as nat),
                n + base.len() <= usize::MAX,
                views(out@) == first + rows_joined(n as nat, k as nat, base, i as nat),
            decreases k - i,
        {
            proof {
                assert(base.push(Augmentation::InsertAt(i)).drop_last() =~= base);
            }
            ops.push(Augmentation::insert_at(i));
            stirling_partitions(n - 1, k, ops, ip, out);
            ops.pop();
            i += 1;
            proof {
                assert(ops@ =~= base);
                assert(views(out@) =~= first + rows_joined(n as nat, k as nat, base, i as nat));
            }
        }
        proof {
            assert(views(out@) =~= start + rows(n as nat, k as nat, base));
        }
    } else {
        proof {
            assert(views(out@) =~= views(out@) + rows(n as nat, k as nat, ops@));
        }
    }
}

/// The partitions reached for `n` elements and fewer than `upto` parts.
pub open spec fn rows_upto(n: nat, upto: nat) -> Seq<Indexed>
    decreases upto,
{
    if upto == 0 {
        Seq::empty()
    } else {
        rows_upto(n, (upto - 1) as nat) + rows(n, (upto - 1) as nat, Seq::empty())
    }
}

/// Each partition reached for fewer than `upto` parts has `n` elements, lying
/// in parts that are all in use; there are as many as the Stirling numbers say.
pub proof fn lemma_rows_upto(n: nat, upto: nat, j: int)
    requires
        n <= usize::MAX,
        0 <= j < rows_upto(n, upto).len(),
    ensures
        rows_upto(n, upto).len() == stirling_sum(n, upto),
        well_indexed(rows_upto(n, upto)[j]),
        rows_upto(n, upto)[j].index.len() == n,
    decreases upto,
{
    if upto > 0 {
        let before = rows_upto(n, (upto - 1) as nat);
        lemma_rows_upto_len(n, (upto - 1) as nat);
        lemma_rows_len(n, (upto - 1) as nat, Seq::empty());
        if j < before.len() {
            lemma_rows_upto(n, (upto - 1) as nat, j);
        } else {
            lemma_rows_well_indexed(n, (upto - 1) as nat, Seq::empty(), j - before.len());
        }
    }
}

/// For fewer than `upto` parts as many partitions are reached as the Stirling
/// numbers say.
pub proof fn lemma_rows_upto_len(n: nat, upto: nat)
    ensures
        rows_upto(n, upto).len() == stirling_sum(n, upto),
    decreases upto,
{
    if upto > 0 {
        lemma_rows_upto_len(n, (upto - 1) as nat);
        lemma_rows_len(n, (upto - 1) as nat, Seq::empty());
    }
}

/// The partitions of `{0, ..., n - 1}`: those into no part first, then those
/// into one part, and so on up to `n` parts.
pub fn partitions(n: usize) -> (all: Vec<Vec<Vec<usize>>>)
    requires
        n < usize::MAX,
    ensures
        all@.len() == bell(n as nat),
        forall|j: int|
            0 <= j < all@.len() ==> is_partition_from_zero(blocks((#[trigger] all@[j])@), n as nat),
        forall|j: int|
            0 <= j < all@.len() ==> blocks((#[trigger] all@[j])@) == parts(
                rows_upto(n as nat, (n + 1) as nat)[j],
            ),
{
    let mut ip = IndexedPartition::with_capacity(n);
    let mut out: Vec<IndexedPartition> = Vec::new();
    let mut k: usize = 0;
    proof {
        assert(views(out@) =~= rows_upto(n as nat, 0));
    }
    while k <= n
        invariant
            k <= n + 1,
            n < usize::MAX,
            views(out@) == rows_upto(n as nat, k as nat),
        decreases n + 1 - k,
    {
        let mut ops = AugmentationStack::new();
        stirling_partitions(n, k, &mut ops, &mut ip, &mut out);
        k += 1;
    }
    let ghost reached = rows_upto(n as nat, (n + 1) as nat);
    proof {
        lemma_rows_upto_len(n as nat, (n + 1) as nat);
    }
    let mut all: Vec<Vec<Vec<usize>>> = Vec::new();
    let mut j: usize = 0;
    while j < out.len()
        invariant
            j <= out@.len(),
            views(out@) == reached,
            reached == rows_upto(n as nat, (n + 1) as nat),
            all@.len() == j,
            forall|i: int| 0 <= i < j ==> blocks((#[trigger] all@[i])@) == parts(reached[i]),
            forall|i: int|
                0 <= i < j ==> is_partition_from_zero(blocks((#[trigger] all@[i])@), n as nat),
        decreases out@.len() - j,
    {
        proof {
            lemma_rows_upto(n as nat, (n + 1) as nat, j as int);
            assert(views(out@)[j as int] == out@[j as int]@);
        }
        proof {
            lemma_parts_partition(out@[j as int]@);
        }
        let p = to_parts(&out[j]);
        all.push(p);
        j += 1;
    }
    all
}

} // verus!
