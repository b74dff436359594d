use vstd::prelude::*;
use crate::order::{is_ancestor, lemma_ancestor_range, lemma_ancestors_below, topological_order};
use crate::tensor::{Graph, Op, Tensor, operands_below};

verus! {

/// One gradient accumulation of the backward pass. `from` is the node whose
/// backward rule fires, `to` the operand that receives gradient from it.
#[derive(Clone, Copy, Debug, PartialEq, Eq, Structural)]
pub enum Step {
    /// `grad[to] += grad[from]`
    Pass { from: usize, to: usize },
    /// `grad[to] -= grad[from]`
    Negate { from: usize, to: usize },
    /// `grad[to] += grad[from] * value[by]`
    Scale { from: usize, to: usize, by: usize },
    /// `grad[to] += grad[from] * n * value[to] ^ (n - 1)`, where `n` is the
    /// exponent of node `from`
    Power { from: usize, to: usize },
    /// `grad[to] += grad[from]` when `value[to] > 0`, else nothing
    Gate { from: usize, to: usize },
}

impl Step {
    pub open spec fn from(self) -> int {
        match self {
            Step::Pass { from, .. } => from as int,
            Step::Negate { from, .. } => from as int,
            Step::Scale { from, .. } => from as int,
            Step::Power { from, .. } => from as int,
            Step::Gate { from, .. } => from as int,
        }
    }

    pub open spec fn to(self) -> int {
        match self {
            Step::Pass { to, .. } => to as int,
            Step::Negate { to, .. } => to as int,
            Step::Scale { to, .. } => to as int,
            Step::Power { to, .. } => to as int,
            Step::Gate { to, .. } => to as int,
        }
    }
}

/// The local backward rule of node `n`, whose operation is `op`.
pub open spec fn rule_steps(op: Op, n: usize) -> Seq<Step> {
    match op {
        Op::Leaf => seq![],
        Op::Add(a, b) => seq![Step::Pass { from: n, to: a }, Step::Pass { from: n, to: b }],
        Op::Sub(a, b) => seq![Step::Pass { from: n, to: a }, Step::Negate { from: n, to: b }],
        Op::Mul(a, b) => seq![Step::Scale { from: n, to: a, by: b }, Step::Scale { from: n, to: b, by: a }],
        Op::Pow(a) => seq![Step::Power { from: n, to: a }],
        Op::Relu(a) => seq![Step::Gate { from: n, to: a }],
    }
}

/// The rules of the nodes of `order`, fired from its last node to its first.
pub open spec fn schedule(ops: Seq<Op>, order: Seq<usize>) -> Seq<Step>
    decreases order.len(),
{
    if order.len() == 0 {
        Seq::empty()
    } else {
        rule_steps(ops[order.last() as int], order.last()) + schedule(ops, order.drop_last())
    }
}

/// Operands precede their users in `ops`.
pub open spec fn operands_first(ops: Seq<Op>) -> bool {
    forall|i: int| 0 <= i < ops.len() ==> #[trigger] operands_below(ops[i], i)
}

/// Walking a strictly increasing order from its end, every step sends
/// gradient to a node below the one that fires it, and no node fires its
/// rule before every step that feeds it has run.
pub proof fn lemma_schedule_feeds_before_firing(ops: Seq<Op>, order: Seq<usize>)
    requires
        operands_first(ops),
        forall|p: int| 0 <= p < order.len() ==> #[trigger] order[p] < ops.len(),
        forall|p: int, q: int| 0 <= p < q < order.len() ==> order[p] < order[q],
    ensures
        forall|s: int|
            0 <= s < schedule(ops, order).len() ==> {
                let st = #[trigger] schedule(ops, order)[s];
                0 <= st.to() < st.from() && st.from() <= order.last()
            },
        forall|s: int, t: int|
            0 <= s < schedule(ops, order).len() && 0 <= t < schedule(ops, order).len()
                && #[trigger] schedule(ops, order)[t].to() == #[trigger] schedule(ops, order)[s].from()
                ==> t < s,
    decreases order.len(),
{
    if order.len() > 0 {
        let rest = order.drop_last();
        lemma_schedule_feeds_before_firing(ops, rest);
        let n = order.last();
        let head = rule_steps(ops[n as int], n);
        let tail = schedule(ops, rest);
        let all = schedule(ops, order);
        assert(all == head + tail);
        assert(operands_below(ops[n as int], n as int));
        assert forall|s: int| 0 <= s < head.len() implies {
            let st = #[trigger] head[s];
            0 <= st.to() < st.from() && st.from() == n
        } by {}
        if rest.len() > 0 {
            assert(rest.last() < n);
        }
        assert forall|s: int|
            0 <= s < all.len() implies {
                let st = #[trigger] all[s];
                0 <= st.to() < st.from() && st.from() <= order.last()
            } by {
            if s >= head.len() {
                assert(all[s] == tail[s - head.len()]);
            }
        }
        assert forall|s: int, t: int|
            0 <= s < all.len() && 0 <= t < all.len() && #[trigger] all[t].to() == #[trigger] all[s].from()
                implies t < s by {
            if s >= head.len() && t >= head.len() {
                assert(all[s] == tail[s - head.len()]);
                assert(all[t] == tail[t - head.len()]);
            }
            if s < head.len() {
                if t >= head.len() {
                    assert(all[t] == tail[t - head.len()]);
                }
            }
        }
    }
}

proof fn lemma_filter_all(s: Seq<Step>, pred: spec_fn(Step) -> bool, keep: bool)
    requires
        forall|i: int| 0 <= i < s.len() ==> pred(#[trigger] s[i]) == keep,
    ensures
        s.filter(pred) == (if keep { s } else { Seq::<Step>::empty() }),
    decreases s.len(),
{
    reveal(Seq::filter);
    if s.len() > 0 {
        lemma_filter_all(s.drop_last(), pred, keep);
        assert(s.last() == s[s.len() - 1]);
        if keep {
            assert(s.drop_last().push(s.last()) =~= s);
        }
    }
}

proof fn lemma_schedule_fires(ops: Seq<Op>, order: Seq<usize>, n: usize)
    requires
        forall|p: int, q: int| 0 <= p < q < order.len() ==> order[p] < order[q],
    ensures
        schedule(ops, order).filter(|st: Step| st.from() == n) == (if order.contains(n) {
            rule_steps(ops[n as int], n)
        } else {
            Seq::<Step>::empty()
        }),
    decreases order.len(),
{
    let pred = |st: Step| st.from() == n;
    if order.len() == 0 {
        reveal(Seq::filter);
        assert(schedule(ops, order).filter(pred) =~= Seq::<Step>::empty());
    } else {
        let dl = order.drop_last();
        let m = order.last();
        lemma_schedule_fires(ops, dl, n);
        let head = rule_steps(ops[m as int], m);
        Seq::filter_distributes_over_add(head, schedule(ops, dl), pred);
        lemma_filter_all(head, pred, m == n);
        if m == n {
            assert(!dl.contains(n)) by {
                if dl.contains(n) {
                    let p = choose|p: int| 0 <= p < dl.len() && dl[p] == n;
                    assert(order[p] < order[order.len() - 1]);
                }
            }
            assert(order.contains(n)) by {
                assert(order[order.len() - 1] == n);
            }
            assert(head + Seq::<Step>::empty() =~= head);
        } else {
            assert(order.contains(n) == dl.contains(n)) by {
                if order.contains(n) {
                    let p = choose|p: int| 0 <= p < order.len() && order[p] == n;
                    assert(p < order.len() - 1);
                    assert(dl[p] == n);
                }
                if dl.contains(n) {
                    let p = choose|p: int| 0 <= p < dl.len() && dl[p] == n;
                    assert(order[p] == n);
                }
            }
            assert(Seq::<Step>::empty() + schedule(ops, dl).filter(pred) =~= schedule(ops, dl).filter(pred));
        }
    }
}

/// In the backward pass from `root`, node `n` fires its local rule exactly
/// once when it is an ancestor of `root`, and fires nothing otherwise: no
/// contribution is counted twice or lost, however many paths lead to `n`.
pub proof fn lemma_each_rule_fires_once(ops: Seq<Op>, root: usize, n: usize)
    requires
        root < ops.len(),
    ensures
        schedule(ops, topological_order(ops, root as int)).filter(|st: Step| st.from() == n) == (if is_ancestor(
            ops,
            root as int,
            n as int,
        ) {
            rule_steps(ops[n as int], n)
        } else {
            Seq::<Step>::empty()
        }),
{
    let r = root as int;
    let order = topological_order(ops, r);
    lemma_ancestors_below(ops, r, r + 1);
    lemma_schedule_fires(ops, order, n);
    if is_ancestor(ops, r, n as int) {
        lemma_ancestor_range(ops, r, n as int);
        let p = choose|p: int| 0 <= p < order.len() && #[trigger] order[p] == n as int;
        assert(order.contains(n));
    } else if order.contains(n) {
        let p = choose|p: int| 0 <= p < order.len() && order[p] == n;
        assert(is_ancestor(ops, r, order[p] as int));
    }
}

fn append_rule(steps: &mut Vec<Step>, op: Op, n: usize)
    ensures
        final(steps)@ == old(steps)@ + rule_steps(op, n),
{
    match op {
        Op::Leaf => {},
        Op::Add(a, b) => {
            steps.push(Step::Pass { from: n, to: a });
            steps.push(Step::Pass { from: n, to: b });
        },
        Op::Sub(a, b) => {
            steps.push(Step::Pass { from: n, to: a });
            steps.push(Step::Negate { from: n, to: b });
        },
        Op::Mul(a, b) => {
            steps.push(Step::Scale { from: n, to: a, by: b });
            steps.push(Step::Scale { from: n, to: b, by: a });
        },
        Op::Pow(a) => {
            steps.push(Step::Power { from: n, to: a });
        },
        Op::Relu(a) => {
            steps.push(Step::Gate { from: n, to: a });
        },
    }
    assert(final(steps)@ =~= old(steps)@ + rule_steps(op, n));
}

impl Tensor {
    /// The backward pass from this node, as the sequence of gradient
    /// accumulations to run after seeding this node's gradient with one: the
    /// local rule of every ancestor fires once, from this node towards the
    /// leaves, and each node fires only after every step that feeds it.
    pub fn backward(&self, g: &Graph) -> (steps: Vec<Step>)
        requires
            g.wf(),
            g.holds(*self),
        ensures
            steps@ == schedule(g@, topological_order(g@, self.id as int)),
            forall|s: int|
                0 <= s < steps@.len() ==> 0 <= (#[trigger] steps@[s]).to() < steps@[s].from() <= self.id,
            forall|s: int, t: int|
                0 <= s < steps@.len() && 0 <= t < steps@.len() && #[trigger] steps@[t].to()
                    == #[trigger] steps@[s].from() ==> t < s,
    {
        let order = self.build_reverse_top_order(g);
        let ghost ops = g@;
        let mut steps: Vec<Step> = Vec::new();
        let mut k: usize = order.len();
        assert(order@.take(k as int) =~= order@);
        assert(steps@ + schedule(ops, order@) =~= schedule(ops, order@));
        while k > 0
            invariant
                g@ == ops,
                g.wf(),
                k <= order@.len(),
                forall|p: int| 0 <= p < order@.len() ==> #[trigger] order@[p] < ops.len(),
                steps@ + schedule(ops, order@.take(k as int)) == schedule(ops, order@),
            decreases k,
        {
            let ghost before = steps@;
            let n = order[k - 1];
            append_rule(&mut steps, g.op(n), n);
            proof {
                let pre = order@.take(k as int);
                assert(pre.drop_last() =~= order@.take(k - 1));
                assert(pre.last() == n);
                assert(schedule(ops, pre) == rule_steps(ops[n as int], n) + schedule(ops, order@.take(k - 1)));
                assert(steps@ + schedule(ops, order@.take(k - 1)) =~= before + schedule(ops, pre));
            }
            k -= 1;
        }
        proof {
            assert(order@.take(0) =~= Seq::<usize>::empty());
            assert(steps@ =~= schedule(ops, order@));
            assert(operands_first(ops)) by {
                assert forall|i: int| 0 <= i < ops.len() implies #[trigger] operands_below(ops[i], i) by {
                    assert(operands_below(g@[i], i));
                }
            }
            lemma_schedule_feeds_before_firing(ops, order@);
        }
        steps
    }
}

} // verus!
