use vstd::prelude::*;
use crate::tensor::{Graph, Op, Tensor, is_operand, operands_below};

verus! {

/// Node `j` is an ancestor of `root`: it is `root` itself, or an operand of
/// some ancestor of `root`.
pub open spec fn is_ancestor(ops: Seq<Op>, root: int, j: int) -> bool
    decreases root - j,
{
    j == root || (j < root && exists|k: int|
        j < k <= root && k < ops.len() && #[trigger] is_operand(ops[k], j) && is_ancestor(ops, root, k))
}

/// The ancestors of `root` among the nodes `0 .. n`, in increasing order.
pub open spec fn ancestors_below(ops: Seq<Op>, root: int, n: int) -> Seq<usize>
    decreases n,
{
    if n <= 0 {
        Seq::empty()
    } else if is_ancestor(ops, root, n - 1) {
        ancestors_below(ops, root, n - 1).push((n - 1) as usize)
    } else {
        ancestors_below(ops, root, n - 1)
    }
}

/// Every ancestor of `root` exactly once, leaves first and `root` last.
pub open spec fn topological_order(ops: Seq<Op>, root: int) -> Seq<usize> {
    ancestors_below(ops, root, root + 1)
}

pub(crate) proof fn lemma_ancestor_range(ops: Seq<Op>, root: int, j: int)
    requires
        0 <= root,
        is_ancestor(ops, root, j),
    ensures
        0 <= j <= root,
{
    if j != root {
        let k = choose|k: int|
            j < k <= root && k < ops.len() && #[trigger] is_operand(ops[k], j) && is_ancestor(ops, root, k);
        assert(0 <= j) by {
            match ops[k] {
                Op::Leaf => {},
                _ => {},
            }
        }
    }
}

pub(crate) proof fn lemma_ancestors_below(ops: Seq<Op>, root: int, n: int)
    requires
        0 <= n <= usize::MAX + 1,
    ensures
        forall|p: int, q: int|
            0 <= p < q < ancestors_below(ops, root, n).len() ==> ancestors_below(ops, root, n)[p]
                < ancestors_below(ops, root, n)[q],
        forall|p: int|
            0 <= p < ancestors_below(ops, root, n).len() ==> {
                let x = #[trigger] ancestors_below(ops, root, n)[p];
                x < n && is_ancestor(ops, root, x as int)
            },
        forall|x: int|
            0 <= x < n && is_ancestor(ops, root, x) ==> exists|p: int|
                0 <= p < ancestors_below(ops, root, n).len() && #[trigger] ancestors_below(ops, root, n)[p]
                    == x,
    decreases n,
{
    if n > 0 {
        lemma_ancestors_below(ops, root, n - 1);
        let prev = ancestors_below(ops, root, n - 1);
        let cur = ancestors_below(ops, root, n);
        assert forall|x: int| 0 <= x < n && is_ancestor(ops, root, x) implies exists|p: int|
            0 <= p < cur.len() && #[trigger] cur[p] == x by {
            if x < n - 1 {
                let p = choose|p: int| 0 <= p < prev.len() && #[trigger] prev[p] == x;
                assert(cur[p] == x);
            } else {
                assert(cur[prev.len() as int] == x);
            }
        }
    }
}

fn mark_operand(mark: &mut Vec<bool>, j: usize)
    requires
        j < old(mark)@.len(),
    ensures
        final(mark)@ == old(mark)@.update(j as int, true),
{
    mark.set(j, true);
}

impl Tensor {
    /// Lists every ancestor of this node (itself included) exactly once, each
    /// after all of its operands, with this node last. Because operands are
    /// always recorded before their users, increasing arena order is such an
    /// order; the ancestors are found by one sweep from this node down to the
    /// first node, keyed on node identity.
    pub fn build_reverse_top_order(&self, g: &Graph) -> (order: Vec<usize>)
        requires
            g.wf(),
            g.holds(*self),
        ensures
            order@ == topological_order(g@, self.id as int),
            order@.len() > 0,
            order@.last() == self.id,
            forall|p: int, q: int| 0 <= p < q < order@.len() ==> order@[p] < order@[q],
            forall|p: int|
                0 <= p < order@.len() ==> is_ancestor(g@, self.id as int, #[trigger] order@[p] as int),
            forall|j: int|
                is_ancestor(g@, self.id as int, j) ==> exists|p: int|
                    0 <= p < order@.len() && #[trigger] order@[p] == j,
            forall|p: int, j: int|
                0 <= p < order@.len() && #[trigger] is_operand(g@[order@[p] as int], j) ==> exists|q: int|
                    0 <= q < p && #[trigger] order@[q] == j,
    {
        let root = self.id;
        let ghost ops = g@;
        let len = g.len();
        let mut mark: Vec<bool> = Vec::new();
        let mut j: usize = 0;
        while j <= root
            invariant
                j <= root + 1,
                root < ops.len(),
                ops.len() == len,
                mark@.len() == j,
                forall|i: int| 0 <= i < j ==> mark@[i] == (i == root),
            decreases root + 1 - j,
        {
            mark.push(j == root);
            j += 1;
        }
        let mut i: usize = root + 1;
        while i > 0
            invariant
                g@ == ops,
                g.wf(),
                root < ops.len(),
                i <= root + 1,
                mark@.len() == root + 1,
                forall|j: int| i <= j <= root ==> mark@[j] == is_ancestor(ops, root as int, j),
                forall|j: int|
                    0 <= j < i ==> mark@[j] == (j == root || exists|k: int|
                        i <= k <= root && #[trigger] is_operand(ops[k], j) && is_ancestor(ops, root as int, k)),
            decreases i,
        {
            i -= 1;
            assert(mark@[i as int] == is_ancestor(ops, root as int, i as int));
            let ghost before = mark@;
            if mark[i] {
                assert(operands_below(ops[i as int], i as int));
                match g.op(i) {
                    Op::Leaf => {},
                    Op::Add(a, b) | Op::Sub(a, b) | Op::Mul(a, b) => {
                        mark_operand(&mut mark, a);
                        mark_operand(&mut mark, b);
                    },
                    Op::Pow(a) | Op::Relu(a) => {
                        mark_operand(&mut mark, a);
                    },
                }
            }
            assert forall|j: int|
                0 <= j < i implies mark@[j] == (j == root || exists|k: int|
                    i <= k <= root && #[trigger] is_operand(ops[k], j) && is_ancestor(ops, root as int, k)) by {
                if is_operand(ops[i as int], j) && before[i as int] {
                    assert(is_operand(ops[i as int], j) && is_ancestor(ops, root as int, i as int));
                }
                if mark@[j] && !before[j] {
                    assert(is_operand(ops[i as int], j) && is_ancestor(ops, root as int, i as int));
                }
            }
        }
        let mut order: Vec<usize> = Vec::new();
        let mut n: usize = 0;
        while n <= root
            invariant
                root < ops.len(),
                ops.len() == len,
                n <= root + 1,
                mark@.len() == root + 1,
                forall|j: int| 0 <= j <= root ==> mark@[j] == is_ancestor(ops, root as int, j),
                order@ == ancestors_below(ops, root as int, n as int),
            decreases root + 1 - n,
        {
            if mark[n] {
                order.push(n);
            }
            n += 1;
        }
        proof {
            let r = root as int;
            lemma_ancestors_below(ops, r, r + 1);
            assert(is_ancestor(ops, r, r));
            let pr = choose|p: int| 0 <= p < order@.len() && #[trigger] order@[p] == r;
            assert(order@.last() == root) by {
                if pr < order@.len() - 1 {
                    let l = order@.len() - 1;
                    assert(order@[l] < r + 1);
                }
            }
            assert forall|j: int| is_ancestor(ops, r, j) implies exists|p: int|
                0 <= p < order@.len() && #[trigger] order@[p] == j by {
                lemma_ancestor_range(ops, r, j);
            }
            assert forall|p: int, j: int|
                0 <= p < order@.len() && #[trigger] is_operand(ops[order@[p] as int], j) implies exists|q: int|
                    0 <= q < p && #[trigger] order@[q] == j by {
                let x = order@[p] as int;
                assert(operands_below(ops[x], x));
                assert(j < x);
                assert(is_ancestor(ops, r, j));
                lemma_ancestor_range(ops, r, j);
                let q = choose|q: int| 0 <= q < order@.len() && #[trigger] order@[q] == j;
                if q >= p {
                    assert(order@[p] <= order@[q]);
                }
            }
        }
        order
    }
}

} // verus!
