use vstd::prelude::*;

verus! {

/// The operation that produced a node, with the arena indices of its operands.
#[derive(Clone, Copy, Debug, PartialEq, Eq, Structural)]
pub enum Op {
    /// An input, weight, bias or constant: no operands.
    Leaf,
    /// `a + b`
    Add(usize, usize),
    /// `a - b`, with its own backward rule.
    Sub(usize, usize),
    /// `a * b`
    Mul(usize, usize),
    /// `a ^ n`, where the exponent `n` is a plain constant kept with the values.
    Pow(usize),
    /// `max(a, 0)`
    Relu(usize),
}

/// `j` is one of the operands of `op`.
pub open spec fn is_operand(op: Op, j: int) -> bool {
    match op {
        Op::Leaf => false,
        Op::Add(a, b) => j == a || j == b,
        Op::Sub(a, b) => j == a || j == b,
        Op::Mul(a, b) => j == a || j == b,
        Op::Pow(a) => j == a,
        Op::Relu(a) => j == a,
    }
}

/// Every operand of `op` was created before position `i`.
pub open spec fn operands_below(op: Op, i: int) -> bool {
    match op {
        Op::Leaf => true,
        Op::Add(a, b) => a < i && b < i,
        Op::Sub(a, b) => a < i && b < i,
        Op::Mul(a, b) => a < i && b < i,
        Op::Pow(a) => a < i,
        Op::Relu(a) => a < i,
    }
}

/// An arena of nodes: node `i` is the `i`-th operation recorded.
pub struct Graph {
    ops: Vec<Op>,
}

/// A handle on one node of a [`Graph`]: its index in the arena. Two handles
/// denote the same node exactly when their indices are equal.
#[derive(Clone, Copy, Debug, PartialEq, Eq, Structural)]
pub struct Tensor {
    pub id: usize,
}

impl Graph {
    pub closed spec fn view(&self) -> Seq<Op> {
        self.ops@
    }

    /// Operands always precede the node that uses them, so the parent
    /// relation is acyclic.
    pub open spec fn wf(&self) -> bool {
        forall|i: int| 0 <= i < self@.len() ==> #[trigger] operands_below(self@[i], i)
    }

    pub open spec fn holds(&self, t: Tensor) -> bool {
        t.id < self@.len()
    }

    /// An empty arena.
    pub fn new() -> (g: Graph)
        ensures
            g.wf(),
            g@ == Seq::<Op>::empty(),
    {
        Graph { ops: Vec::new() }
    }

    /// The number of nodes recorded so far.
    pub fn len(&self) -> (n: usize)
        ensures
            n == self@.len(),
    {
        self.ops.len()
    }

    /// The operation that produced node `id`.
    pub fn op(&self, id: usize) -> (o: Op)
        requires
            id < self@.len(),
        ensures
            o == self@[id as int],
    {
        self.ops[id]
    }

    /// Forgets every node from position `len` on: what a later forward pass
    /// recorded over the nodes kept. Handles below `len` stay valid.
    pub fn truncate(&mut self, len: usize)
        requires
            old(self).wf(),
            len <= old(self)@.len(),
        ensures
            final(self).wf(),
            final(self)@ == old(self)@.subrange(0, len as int),
    {
        let ghost before = self@;
        self.ops.truncate(len);
        assert forall|i: int| 0 <= i < self@.len() implies #[trigger] operands_below(self@[i], i) by {
            assert(self@[i] == before[i]);
        }
    }

    fn record(&mut self, op: Op) -> (t: Tensor)
        requires
            old(self).wf(),
            operands_below(op, old(self)@.len() as int),
            old(self)@.len() < usize::MAX,
        ensures
            final(self).wf(),
            final(self)@ == old(self)@.push(op),
            t.id == old(self)@.len(),
    {
        let id = self.ops.len();
        self.ops.push(op);
        proof {
            assert forall|i: int| 0 <= i < self@.len() implies #[trigger] operands_below(self@[i], i) by {
                if i < id {
                    assert(self@[i] == old(self)@[i]);
                }
            }
        }
        Tensor { id }
    }
}

impl Tensor {
    /// Records a new leaf (an input, weight, bias or constant) and returns its
    /// handle. Its gradient starts at zero; its value is set by the holder of
    /// the values.
    pub fn new(g: &mut Graph) -> (t: Tensor)
        requires
            old(g).wf(),
            old(g)@.len() < usize::MAX,
        ensures
            final(g).wf(),
            final(g)@ == old(g)@.push(Op::Leaf),
            t.id == old(g)@.len(),
    {
        g.record(Op::Leaf)
    }

    /// Records `self + other`.
    pub fn add(&self, g: &mut Graph, other: &Tensor) -> (t: Tensor)
        requires
            old(g).wf(),
            old(g).holds(*self),
            old(g).holds(*other),
            old(g)@.len() < usize::MAX,
        ensures
            final(g).wf(),
            final(g)@ == old(g)@.push(Op::Add(self.id, other.id)),
            t.id == old(g)@.len(),
    {
        g.record(Op::Add(self.id, other.id))
    }

    /// Records `self - other`.
    pub fn sub(&self, g: &mut Graph, other: &Tensor) -> (t: Tensor)
        requires
            old(g).wf(),
            old(g).holds(*self),
            old(g).holds(*other),
            old(g)@.len() < usize::MAX,
        ensures
            final(g).wf(),
            final(g)@ == old(g)@.push(Op::Sub(self.id, other.id)),
            t.id == old(g)@.len(),
    {
        g.record(Op::Sub(self.id, other.id))
    }

    /// Records `self * other`.
    pub fn mul(&self, g: &mut Graph, other: &Tensor) -> (t: Tensor)
        requires
            old(g).wf(),
            old(g).holds(*self),
            old(g).holds(*other),
            old(g)@.len() < usize::MAX,
        ensures
            final(g).wf(),
            final(g)@ == old(g)@.push(Op::Mul(self.id, other.id)),
            t.id == old(g)@.len(),
    {
        g.record(Op::Mul(self.id, other.id))
    }

    /// Records `self ^ n`; the constant exponent `n` is kept with the values.
    pub fn pow(&self, g: &mut Graph) -> (t: Tensor)
        requires
            old(g).wf(),
            old(g).holds(*self),
            old(g)@.len() < usize::MAX,
        ensures
            final(g).wf(),
            final(g)@ == old(g)@.push(Op::Pow(self.id)),
            t.id == old(g)@.len(),
    {
        g.record(Op::Pow(self.id))
    }

    /// Records `max(self, 0)`.
    pub fn relu(&self, g: &mut Graph) -> (t: Tensor)
        requires
            old(g).wf(),
            old(g).holds(*self),
            old(g)@.len() < usize::MAX,
        ensures
            final(g).wf(),
            final(g)@ == old(g)@.push(Op::Relu(self.id)),
            t.id == old(g)@.len(),
    {
        g.record(Op::Relu(self.id))
    }
}

} // verus!
