//! The partitions of `{0, ..., n - 1}` in the order of the Bell triangle:
//! each partition is reached by a stack of steps that build it up from the
//! partition of one element.

use crate::indexed::{
    lemma_parts_partition, parts, to_parts, views, well_indexed, Indexed, IndexedPartition,
};
use crate::partition::{blocks, is_partition_from_zero};
use vstd::prelude::*;

verus! {

/// One step that adds an element to a partition.
#[derive(Debug, Clone, Copy)]
pub enum Augmentation {
    /// The new element forms a part of its own.
    AddSingleton,
    /// Elements `n - 1` and `k - 1` change parts, and the new element joins
    /// the part that element `k - 1` then lies in.
    Swappend { n: usize, k: usize },
}

/// Whether `op` can be carried out on `m`.
pub open spec fn applicable(op: Augmentation, m: Indexed) -> bool {
    match op {
        Augmentation::AddSingleton => m.part_count < usize::MAX,
        Augmentation::Swappend { n, k } => 1 <= n <= m.index.len() && 1 <= k <= m.index.len(),
    }
}

/// What `op` makes of `m`.
pub open spec fn augmented(op: Augmentation, m: Indexed) -> Indexed {
    match op {
        Augmentation::AddSingleton => Indexed {
            part_count: m.part_count + 1,
            index: m.index.push(m.part_count as usize),
        },
        Augmentation::Swappend { n, k } => {
            let swapped = m.index.update(n - 1, m.index[k - 1]).update(k - 1, m.index[n - 1]);
            Indexed { part_count: m.part_count, index: swapped.push(swapped[k - 1]) }
        },
    }
}

impl Augmentation {
    /// The step in which the new element forms a part of its own.
    pub fn add_singleton() -> (op: Augmentation)
        ensures
            op == Augmentation::AddSingleton,
    {
        Augmentation::AddSingleton
    }

    /// The step in which elements `n - 1` and `k - 1` change parts and the new
    /// element joins the part that element `k - 1` then lies in.
    pub fn swappend(n: usize, k: usize) -> (op: Augmentation)
        ensures
            op == (Augmentation::Swappend { n, k }),
    {
        Augmentation::Swappend { n, k }
    }

    /// Carries the step out on `ip`.
    pub fn apply(&self, ip: &mut IndexedPartition)
        requires
            applicable(*self, old(ip)@),
        ensures
            final(ip)@ == augmented(*self, old(ip)@),
    {
        match *self {
            Augmentation::AddSingleton => {
                ip.index.push(ip.part_count);
                ip.part_count += 1;
            },
            Augmentation::Swappend { n, k } => {
                let a = ip.index[n - 1];
                let b = ip.index[k - 1];
                ip.index[n - 1] = b;
                ip.index[k - 1] = a;
                let joined = ip.index[k - 1];
                ip.index.push(joined);
            },
        }
    }
}

/// What the steps `ops` make of `m`, carried out from the last to the first.
pub open spec fn augmented_by(ops: Seq<Augmentation>, m: Indexed) -> Indexed
    decreases ops.len(),
{
    if ops.len() == 0 {
        m
    } else {
        augmented_by(ops.drop_last(), augmented(ops.last(), m))
    }
}

/// Whether the steps `ops` can be carried out, from the last to the first, on
/// a partition of `len` elements of which `count` parts are in use.
pub open spec fn all_applicable(ops: Seq<Augmentation>, m: Indexed) -> bool
    decreases ops.len(),
{
    ops.len() > 0 ==> applicable(ops.last(), m) && all_applicable(
        ops.drop_last(),
        augmented(ops.last(), m),
    )
}

/// The steps that lead from the partition of one element to the partition
/// being made, the first step to be carried out on top.
#[derive(Debug)]
pub struct AugmentationStack {
    pub stack: Vec<Augmentation>,
}

impl View for AugmentationStack {
    type V = Seq<Augmentation>;

    open spec fn view(&self) -> Seq<Augmentation> {
        self.stack@
    }
}

impl AugmentationStack {
    /// A stack without steps.
    pub fn new() -> (ops: AugmentationStack)
        ensures
            ops@ == Seq::<Augmentation>::empty(),
    {
        AugmentationStack { stack: Vec::new() }
    }

    /// Carries out all steps on `ip`, from the top of the stack down.
    pub fn apply(&self, ip: &mut IndexedPartition)
        requires
            all_applicable(self@, old(ip)@),
        ensures
            final(ip)@ == augmented_by(self@, old(ip)@),
    {
        let mut i = self.stack.len();
        proof {
            assert(self@.take(i as int) == self@);
        }
        while i > 0
            invariant
                i <= self@.len(),
                all_applicable(self@.take(i as int), ip@),
                augmented_by(self@.take(i as int), ip@) == augmented_by(self@, old(ip)@),
            decreases i,
        {
            let ghost before = self@.take(i as int);
            i -= 1;
            proof {
                assert(before.drop_last() == self@.take(i as int));
                assert(before.last() == self@[i as int]);
            }
            self.stack[i].apply(ip);
        }
        proof {
            assert(self@.take(0).len() == 0);
        }
    }

    /// Puts `op` on top.
    pub fn push(&mut self, op: Augmentation)
        ensures
            final(self)@ == old(self)@.push(op),
    {
        self.stack.push(op);
    }

    /// Takes the top step off.
    pub fn pop(&mut self)
        requires
            old(self)@.len() > 0,
        ensures
            final(self)@ == old(self)@.drop_last(),
    {
        self.stack.pop().unwrap();
    }
}

/// Whether the steps `ops` are those that lead to a partition of `len`
/// elements: the step to be carried out on `len + i` elements, if it moves
/// elements, names two of them.
pub open spec fn steps_fit(ops: Seq<Augmentation>, len: nat) -> bool {
    &&& len + ops.len() <= usize::MAX
    &&& forall|j: int|
        0 <= j < ops.len() ==> match #[trigger] ops[j] {
            Augmentation::AddSingleton => true,
            Augmentation::Swappend { n, k } => 1 <= k <= n && n == len + (ops.len() - 1 - j),
        }
}

/// Steps that fit can be carried out, and each adds one element.
pub proof fn lemma_steps_apply(ops: Seq<Augmentation>, m: Indexed)
    requires
        steps_fit(ops, m.index.len()),
        m.part_count <= m.index.len(),
        well_indexed(m),
    ensures
        all_applicable(ops, m),
        augmented_by(ops, m).index.len() == m.index.len() + ops.len(),
        augmented_by(ops, m).part_count <= augmented_by(ops, m).index.len(),
        well_indexed(augmented_by(ops, m)),
    decreases ops.len(),
{
    if ops.len() > 0 {
        let op = ops.last();
        let next = augmented(op, m);
        let rest = ops.drop_last();
        assert(op == ops[ops.len() - 1]);
        assert forall|j: int| 0 <= j < rest.len() implies match #[trigger] rest[j] {
            Augmentation::AddSingleton => true,
            Augmentation::Swappend { n, k } => 1 <= k <= n && n == next.index.len() + (rest.len()
                - 1 - j),
        } by {
            assert(rest[j] == ops[j]);
        }
        assert(well_indexed(next)) by {
            match op {
                Augmentation::AddSingleton => {
                    assert forall|c: usize| c < next.part_count implies next.index.contains(c) by {
                        if c < m.part_count {
                            assert(m.index.contains(c));
                            let i = choose|i: int| 0 <= i < m.index.len() && m.index[i] == c;
                            assert(next.index[i] == c);
                        } else {
                            assert(next.index[m.index.len() as int] == c);
                        }
                    }
                },
                Augmentation::Swappend { n, k } => {
                    assert forall|c: usize| c < next.part_count implies next.index.contains(c) by {
                        assert(m.index.contains(c));
                        let i = choose|i: int| 0 <= i < m.index.len() && m.index[i] == c;
                        if i == n - 1 {
                            assert(next.index[k - 1] == c);
                        } else if i == k - 1 {
                            assert(next.index[n - 1] == c);
                        } else {
                            assert(next.index[i] == c);
                        }
                    }
                },
            }
        }
        lemma_steps_apply(rest, next);
    }
}

/// The partitions that `sub_partitions` reaches from `n`, `k` and the steps
/// gathered so far, in the order in which it reaches them.
pub open spec fn rows(n: nat, k: nat, ops: Seq<Augmentation>) -> Seq<Indexed>
    decreases n, k,
{
    if n == 0 {
        seq![augmented_by(ops, Indexed { part_count: 1, index: seq![0usize] })]
    } else if k == 0 {
        rows((n - 1) as nat, (n - 1) as nat, ops.push(Augmentation::AddSingleton))
    } else {
        rows(n, (k - 1) as nat, ops) + rows(
            (n - 1) as nat,
            (k - 1) as nat,
            ops.push(Augmentation::Swappend { n: n as usize, k: k as usize }),
        )
    }
}

/// The entry in row `n`, column `k` of the Bell triangle: each row starts with
/// the last entry of the row before, and each further entry is the sum of the
/// entry to its left and the entry above that one.
pub open spec fn triangle(n: nat, k: nat) -> nat
    decreases n, k,
{
    if n == 0 {
        1
    } else if k == 0 {
        triangle((n - 1) as nat, (n - 1) as nat)
    } else {
        triangle(n, (k - 1) as nat) + triangle((n - 1) as nat, (k - 1) as nat)
    }
}

/// The number of partitions of a set of `n` elements, read off the Bell
/// triangle.
pub open spec fn bell(n: nat) -> nat {
    if n == 0 {
        1
    } else {
        triangle((n - 1) as nat, (n - 1) as nat)
    }
}

/// `sub_partitions` reaches as many partitions as the Bell triangle says.
pub proof fn lemma_rows_len(n: nat, k: nat, ops: Seq<Augmentation>)
    ensures
        rows(n, k, ops).len() == triangle(n, k),
    decreases n, k,
{
    if n == 0 {
    } else if k == 0 {
        lemma_rows_len((n - 1) as nat, (n - 1) as nat, ops.push(Augmentation::AddSingleton));
    } else {
        lemma_rows_len(n, (k - 1) as nat, ops);
        lemma_rows_len(
            (n - 1) as nat,
            (k - 1) as nat,
            ops.push(Augmentation::Swappend { n: n as usize, k: k as usize }),
        );
    }
}

/// Steps that fit still fit when the step for the next smaller partition is
/// put on top.
pub proof fn lemma_steps_push(ops: Seq<Augmentation>, op: Augmentation, n: nat)
    requires
        steps_fit(ops, n + 1),
        match op {
            Augmentation::AddSingleton => true,
            Augmentation::Swappend { n: a, k } => 1 <= k <= a && a == n,
        },
    ensures
        steps_fit(ops.push(op), n),
{
    let more = ops.push(op);
    assert forall|j: int| 0 <= j < more.len() implies match #[trigger] more[j] {
        Augmentation::AddSingleton => true,
        Augmentation::Swappend { n: a, k } => 1 <= k <= a && a == n + (more.len() - 1 - j),
    } by {
        if j < ops.len() {
            assert(more[j] == ops[j]);
        }
    }
}

/// Each partition that `sub_partitions` reaches has `n + 1` elements more than
/// there are steps, lying in parts that are all in use.
pub proof fn lemma_rows_well_indexed(n: nat, k: nat, ops: Seq<Augmentation>, j: int)
    requires
        k <= n,
        steps_fit(ops, n + 1),
        0 <= j < rows(n, k, ops).len(),
    ensures
        well_indexed(rows(n, k, ops)[j]),
        rows(n, k, ops)[j].index.len() == n + 1 + ops.len(),
        rows(n, k, ops)[j].part_count <= n + 1 + ops.len(),
    decreases n, k,
{
    if n == 0 {
        let start = Indexed { part_count: 1, index: seq![0usize] };
        assert(well_indexed(start)) by {
            assert(start.index[0] == 0);
        }
        lemma_steps_apply(ops, start);
    } else if k == 0 {
        lemma_steps_push(ops, Augmentation::AddSingleton, n);
        lemma_rows_well_indexed(
            (n - 1) as nat,
            (n - 1) as nat,
            ops.push(Augmentation::AddSingleton),
            j,
        );
    } else {
        let left = rows(n, (k - 1) as nat, ops);
        let op = Augmentation::Swappend { n: n as usize, k: k as usize };
        if j < left.len() {
            lemma_rows_well_indexed(n, (k - 1) as nat, ops, j);
        } else {
            lemma_steps_push(ops, op, n);
            lemma_rows_well_indexed((n - 1) as nat, (k - 1) as nat, ops.push(op), j - left.len());
        }
    }
}

/// Makes, one after the other, each partition of `n + 1` elements that row `n`
/// of the Bell triangle counts up to column `k`, carries out the gathered
/// steps on it, and puts a copy of what comes out at the end of `out`.
pub fn sub_partitions(
    n: usize,
    k: usize,
    ops: &mut AugmentationStack,
    ip: &mut IndexedPartition,
    out: &mut Vec<IndexedPartition>,
)
    requires
        k <= n,
        steps_fit(old(ops)@, (n + 1) as nat),
        old(ip)@.index.len() == 0,
    ensures
        final(ops)@ == old(ops)@,
        final(ip)@ == (Indexed { part_count: 0, index: Seq::empty() }),
        views(final(out)@) == views(old(out)@) + rows(n as nat, k as nat, old(ops)@),
    decreases n, k,
{
    if n == 0 {
        ip.part_count = 1;
        ip.index.push(0);
        proof {
            let start = Indexed { part_count: 1, index: seq![0usize] };
            assert(ip@.index =~= start.index);
            assert(well_indexed(start)) by {
                assert(start.index[0] == 0);
            }
            lemma_steps_apply(ops@, start);
        }
        ops.apply(ip);
        let copy = IndexedPartition { part_count: ip.part_count, index: ip.index.clone() };
        let ghost before = views(out@);
        out.push(copy);
        proof {
            assert(copy@.index =~= ip@.index);
            assert(views(out@) =~= before.push(ip@));
            assert(before.push(ip@) =~= before + rows(0, k as nat, ops@));
        }
        ip.clear();
    } else {
        if k == 0 {
            proof {
                lemma_steps_push(ops@, Augmentation::AddSingleton, n as nat);
            }
            let ghost base = ops@;
            ops.push(Augmentation::add_singleton());
            sub_partitions(n - 1, n - 1, ops, ip, out);
            ops.pop();
            proof {
                assert(ops@ =~= base);
            }
        } else {
            let ghost base = ops@;
            let ghost start = views(out@);
            sub_partitions(n, k - 1, ops, ip, out);
            proof {
                lemma_steps_push(ops@, Augmentation::Swappend { n, k }, n as nat);
            }
            ops.push(Augmentation::swappend(n, k));
            sub_partitions(n - 1, k - 1, ops, ip, out);
            ops.pop();
            proof {
                assert(ops@ =~= base);
                assert(views(out@) =~= start + rows(n as nat, k as nat, base));
            }
        }
    }
}

/// The partitions of `{0, ..., n - 1}`, each once, in the order of the
/// Bell triangle.
pub fn partitions(n: usize) -> (all: Vec<Vec<Vec<usize>>>)
    ensures
        all@.len() == bell(n as nat),
        forall|j: int|
            0 <= j < all@.len() ==> is_partition_from_zero(blocks((#[trigger] all@[j])@), n as nat),
        n == 0 ==> all@[0]@.len() == 0,
        n > 0 ==> forall|j: int|
            0 <= j < all@.len() ==> blocks((#[trigger] all@[j])@) == parts(
                rows((n - 1) as nat, (n - 1) as nat, Seq::empty())[j],
            ),
{
    let mut all: Vec<Vec<Vec<usize>>> = Vec::new();
    if n == 0 {
        all.push(Vec::new());
    } else {
        let mut ip = IndexedPartition::with_capacity(n);
        let mut ops = AugmentationStack::new();
        let mut out: Vec<IndexedPartition> = Vec::new();
        sub_partitions(n - 1, n - 1, &mut ops, &mut ip, &mut out);
        let ghost reached = rows((n - 1) as nat, (n - 1) as nat, Seq::empty());
        proof {
            lemma_rows_len((n - 1) as nat, (n - 1) as nat, Seq::empty());
            assert(views(out@) =~= reached);
        }
        let mut j: usize = 0;
        while j < out.len()
            invariant
                j <= out@.len(),
                n > 0,
                views(out@) == reached,
                reached == rows((n - 1) as nat, (n - 1) as nat, Seq::empty()),
                all@.len() == j,
                forall|i: int| 0 <= i < j ==> blocks((#[trigger] all@[i])@) == parts(reached[i]),
                forall|i: int|
                    0 <= i < j ==> is_partition_from_zero(blocks((#[trigger] all@[i])@), n as nat),
            decreases out@.len() - j,
        {
            proof {
                lemma_rows_well_indexed((n - 1) as nat, (n - 1) as nat, Seq::empty(), j as int);
                assert(views(out@)[j as int] == out@[j as int]@);
            }
            proof {
                lemma_parts_partition(out@[j as int]@);
            }
            proof {
            lemma_parts_partition(out@[j as int]@);
        }
        let p = to_parts(&out[j]);
            all.push(p);
            j += 1;
        }
    }
    all
}

} // verus!
