use vstd::prelude::*;
use crate::tensor::{Graph, Op, Tensor};

verus! {

/// `n` consecutive leaf records.
pub open spec fn leaves(n: int) -> Seq<Op> {
    Seq::new(n as nat, |i: int| Op::Leaf)
}

/// `n` handles on the consecutive nodes `base .. base + n`.
pub open spec fn handles(base: int, n: int) -> Seq<Tensor> {
    Seq::new(n as nat, |i: int| Tensor { id: (base + i) as usize })
}

/// The records of `w[0]*x[0] + w[1]*x[1] + ... ` over the first `n` terms,
/// recorded from position `base`: the running sum after `k >= 1` terms is
/// node `base + 2 * (k - 1)`.
pub open spec fn sum_ops(base: int, w: Seq<Tensor>, x: Seq<Tensor>, n: int) -> Seq<Op>
    decreases n,
{
    if n <= 0 {
        Seq::empty()
    } else if n == 1 {
        seq![Op::Mul(w[0].id, x[0].id)]
    } else {
        sum_ops(base, w, x, n - 1) + seq![
            Op::Mul(w[n - 1].id, x[n - 1].id),
            Op::Add((base + 2 * (n - 2)) as usize, (base + 2 * n - 3) as usize),
        ]
    }
}

proof fn lemma_sum_ops_len(base: int, w: Seq<Tensor>, x: Seq<Tensor>, n: int)
    requires
        n >= 1,
    ensures
        sum_ops(base, w, x, n).len() == 2 * n - 1,
    decreases n,
{
    if n > 1 {
        lemma_sum_ops_len(base, w, x, n - 1);
    }
}

/// The records of `relu(w . x + b)`, recorded from position `base`; the
/// output is the last of them.
pub open spec fn neuron_ops(base: int, w: Seq<Tensor>, b: Tensor, x: Seq<Tensor>) -> Seq<Op> {
    let n = w.len() as int;
    if n == 0 {
        seq![Op::Relu(b.id)]
    } else {
        sum_ops(base, w, x, n) + seq![
            Op::Add((base + 2 * (n - 1)) as usize, b.id),
            Op::Relu((base + 2 * n - 1) as usize),
        ]
    }
}

/// The weight handles `n.0` and the bias handle `n.1` denote nodes of a
/// graph of `len` nodes.
pub open spec fn within(n: (Seq<Tensor>, Tensor), len: int) -> bool {
    &&& forall|i: int| 0 <= i < n.0.len() ==> (#[trigger] n.0[i]).id < len
    &&& n.1.id < len
}

/// One unit: `relu(w . x + b)` over its weight and bias leaves.
pub struct Neuron {
    weights: Vec<Tensor>,
    bias: Tensor,
}

impl Neuron {
    /// The weight handles and the bias handle.
    pub closed spec fn view(&self) -> (Seq<Tensor>, Tensor) {
        (self.weights@, self.bias)
    }

    /// All of this neuron's handles denote nodes of a graph of `len` nodes.
    pub open spec fn within(&self, len: int) -> bool {
        within(self@, len)
    }

    /// Records `num_inputs` weight leaves, then a bias leaf. Their values
    /// (random weights, a zero bias) are set by the holder of the values.
    pub fn new(g: &mut Graph, num_inputs: usize) -> (r: Neuron)
        requires
            old(g).wf(),
            old(g)@.len() + num_inputs < usize::MAX,
        ensures
            final(g).wf(),
            final(g)@ == old(g)@ + leaves(num_inputs + 1),
            r@.0 == handles(old(g)@.len() as int, num_inputs as int),
            r@.1.id == old(g)@.len() + num_inputs,
    {
        let ghost g0 = g@;
        let mut weights: Vec<Tensor> = Vec::new();
        let mut i: usize = 0;
        while i < num_inputs
            invariant
                g.wf(),
                i <= num_inputs,
                g0.len() + num_inputs < usize::MAX,
                g@ == g0 + leaves(i as int),
                weights@ == handles(g0.len() as int, i as int),
            decreases num_inputs - i,
        {
            let w = Tensor::new(g);
            weights.push(w);
            i += 1;
            assert(g@ =~= g0 + leaves(i as int));
            assert(weights@ =~= handles(g0.len() as int, i as int));
        }
        let bias = Tensor::new(g);
        assert(g@ =~= g0 + leaves(num_inputs + 1));
        Neuron { weights, bias }
    }

    /// Records `relu(w . x + b)` for the given inputs and returns its handle.
    pub fn forward(&self, g: &mut Graph, inputs: &[Tensor]) -> (out: Tensor)
        requires
            old(g).wf(),
            self.within(old(g)@.len() as int),
            inputs@.len() == self@.0.len(),
            forall|i: int| 0 <= i < inputs@.len() ==> (#[trigger] inputs@[i]).id < old(g)@.len(),
            old(g)@.len() + 2 * inputs@.len() + 1 < usize::MAX,
        ensures
            final(g).wf(),
            final(g)@ == old(g)@ + neuron_ops(old(g)@.len() as int, self@.0, self@.1, inputs@),
            out.id == final(g)@.len() - 1,
    {
        let ghost g0 = g@;
        let base = g.len();
        let n = self.weights.len();
        if n == 0 {
            let out = self.bias.relu(g);
            assert(g@ =~= g0 + neuron_ops(base as int, self@.0, self@.1, inputs@));
            return out;
        }
        let mut sum = self.weights[0].mul(g, &inputs[0]);
        assert(g@ =~= g0 + sum_ops(base as int, self@.0, inputs@, 1));
        let mut i: usize = 1;
        while i < n
            invariant
                g.wf(),
                1 <= i <= n,
                n == self@.0.len(),
                n == inputs@.len(),
                base == g0.len(),
                self.within(g0.len() as int),
                forall|k: int| 0 <= k < inputs@.len() ==> (#[trigger] inputs@[k]).id < g0.len(),
                g0.len() + 2 * n + 1 < usize::MAX,
                g@ == g0 + sum_ops(base as int, self@.0, inputs@, i as int),
                sum.id == base + 2 * (i - 1),
            decreases n - i,
        {
            proof {
                lemma_sum_ops_len(base as int, self@.0, inputs@, i as int);
            }
            assert(self@.0[i as int].id < g0.len());
            assert(inputs@[i as int].id < g0.len());
            let m = self.weights[i].mul(g, &inputs[i]);
            sum = sum.add(g, &m);
            i += 1;
            assert(g@ =~= g0 + sum_ops(base as int, self@.0, inputs@, i as int));
        }
        proof {
            lemma_sum_ops_len(base as int, self@.0, inputs@, n as int);
        }
        let total = sum.add(g, &self.bias);
        let out = total.relu(g);
        assert(g@ =~= g0 + neuron_ops(base as int, self@.0, self@.1, inputs@));
        out
    }

    /// The trainable leaves: the weights, then the bias.
    pub fn parameters(&self) -> (r: Vec<Tensor>)
        ensures
            r@ == self@.0.push(self@.1),
    {
        let mut params = self.weights.clone();
        params.push(self.bias);
        params
    }
}

/// The records of one layer's forward pass over inputs `x`, recorded from
/// position `base`: neuron `k` takes the `2 * |x| + 1` records from
/// `base + k * (2 * |x| + 1)`.
pub open spec fn layer_ops(base: int, ns: Seq<(Seq<Tensor>, Tensor)>, x: Seq<Tensor>) -> Seq<Op>
    decreases ns.len(),
{
    if ns.len() == 0 {
        Seq::empty()
    } else {
        layer_ops(base, ns.drop_last(), x) + neuron_ops(
            base + (ns.len() - 1) * (2 * x.len() + 1),
            ns.last().0,
            ns.last().1,
            x,
        )
    }
}

/// The outputs of `n` neurons of input width `width` recorded from `base`:
/// the last record of each.
pub open spec fn layer_outputs(base: int, n: int, width: int) -> Seq<Tensor> {
    Seq::new(n as nat, |k: int| Tensor { id: (base + (k + 1) * (2 * width + 1) - 1) as usize })
}

/// The trainable leaves of the neurons `ns`, neuron by neuron.
pub open spec fn layer_params(ns: Seq<(Seq<Tensor>, Tensor)>) -> Seq<Tensor>
    decreases ns.len(),
{
    if ns.len() == 0 {
        Seq::empty()
    } else {
        layer_params(ns.drop_last()) + ns.last().0.push(ns.last().1)
    }
}

proof fn lemma_neuron_ops_len(base: int, w: Seq<Tensor>, b: Tensor, x: Seq<Tensor>)
    ensures
        neuron_ops(base, w, b, x).len() == 2 * w.len() + 1,
{
    if w.len() > 0 {
        lemma_sum_ops_len(base, w, x, w.len() as int);
    }
}

proof fn lemma_layer_ops_len(base: int, ns: Seq<(Seq<Tensor>, Tensor)>, x: Seq<Tensor>)
    requires
        forall|k: int| 0 <= k < ns.len() ==> (#[trigger] ns[k]).0.len() == x.len(),
    ensures
        layer_ops(base, ns, x).len() == ns.len() * (2 * x.len() + 1),
    decreases ns.len(),
{
    if ns.len() > 0 {
        lemma_layer_ops_len(base, ns.drop_last(), x);
        let n = ns.len() as int;
        lemma_neuron_ops_len(base + (n - 1) * (2 * x.len() + 1), ns.last().0, ns.last().1, x);
        assert(ns.last() == ns[n - 1]);
        assert((n - 1) * (2 * x.len() + 1) + 2 * x.len() + 1 == n * (2 * x.len() + 1))
            by (nonlinear_arith);
    }
}

/// A row of neurons that all read the same inputs.
pub struct Layer {
    neurons: Vec<Neuron>,
}

impl Layer {
    /// The weight and bias handles of each neuron.
    pub closed spec fn view(&self) -> Seq<(Seq<Tensor>, Tensor)> {
        self.neurons@.map_values(|n: Neuron| n@)
    }

    /// Every neuron reads `width` inputs.
    pub open spec fn has_width(&self, width: int) -> bool {
        forall|k: int| 0 <= k < self@.len() ==> (#[trigger] self@[k]).0.len() == width
    }

    /// Records the leaves of `num_outputs` neurons of `num_inputs` weights each.
    pub fn new(g: &mut Graph, num_inputs: usize, num_outputs: usize) -> (r: Layer)
        requires
            old(g).wf(),
            old(g)@.len() + num_outputs * (num_inputs + 1) < usize::MAX,
        ensures
            final(g).wf(),
            final(g)@ == old(g)@ + leaves(num_outputs * (num_inputs + 1)),
            r@.len() == num_outputs,
            forall|k: int|
                0 <= k < num_outputs ==> {
                    let start = old(g)@.len() + k * (num_inputs + 1);
                    &&& (#[trigger] r@[k]).0 == handles(start, num_inputs as int)
                    &&& r@[k].1.id == start + num_inputs
                },
            forall|k: int| 0 <= k < num_outputs ==> within(#[trigger] r@[k], final(g)@.len() as int),
    {
        let ghost g0 = g@;
        let mut neurons: Vec<Neuron> = Vec::new();
        let mut j: usize = 0;
        while j < num_outputs
            invariant
                g.wf(),
                j <= num_outputs,
                g0.len() + num_outputs * (num_inputs + 1) < usize::MAX,
                g@ == g0 + leaves(j * (num_inputs + 1)),
                neurons@.len() == j,
                forall|k: int|
                    0 <= k < j ==> {
                        let start = g0.len() + k * (num_inputs + 1);
                        &&& (#[trigger] neurons@[k])@.0 == handles(start, num_inputs as int)
                        &&& neurons@[k]@.1.id == start + num_inputs
                    },
            decreases num_outputs - j,
        {
            assert(j * (num_inputs + 1) + num_inputs + 1 <= num_outputs * (num_inputs + 1))
                by (nonlinear_arith)
                requires
                    j < num_outputs,
            ;
            let n = Neuron::new(g, num_inputs);
            neurons.push(n);
            proof {
                assert(j * (num_inputs + 1) + (num_inputs + 1) == (j + 1) * (num_inputs + 1))
                    by (nonlinear_arith);
            }
            j += 1;
            assert(g@ =~= g0 + leaves(j * (num_inputs + 1)));
        }
        let r = Layer { neurons };
        assert forall|k: int|
            0 <= k < num_outputs implies {
                let start = g0.len() + k * (num_inputs + 1);
                &&& (#[trigger] r@[k]).0 == handles(start, num_inputs as int)
                &&& r@[k].1.id == start + num_inputs
            } by {
            assert(r@[k] == r.neurons@[k]@);
        }
        assert forall|k: int| 0 <= k < num_outputs implies within(#[trigger] r@[k], g@.len() as int) by {
            assert(r@[k] == r.neurons@[k]@);
            assert(k * (num_inputs + 1) + num_inputs + 1 <= num_outputs * (num_inputs + 1))
                by (nonlinear_arith)
                requires
                    k < num_outputs,
            ;
        }
        r
    }

    /// Records the forward pass of every neuron over `inputs`, in order, and
    /// returns their outputs.
    pub fn forward(&self, g: &mut Graph, inputs: &[Tensor]) -> (out: Vec<Tensor>)
        requires
            old(g).wf(),
            self.has_width(inputs@.len() as int),
            forall|k: int| 0 <= k < self@.len() ==> within(#[trigger] self@[k], old(g)@.len() as int),
            forall|i: int| 0 <= i < inputs@.len() ==> (#[trigger] inputs@[i]).id < old(g)@.len(),
            old(g)@.len() + self@.len() * (2 * inputs@.len() + 1) < usize::MAX,
        ensures
            final(g).wf(),
            final(g)@ == old(g)@ + layer_ops(old(g)@.len() as int, self@, inputs@),
            out@ == layer_outputs(old(g)@.len() as int, self@.len() as int, inputs@.len() as int),
            forall|i: int| 0 <= i < out@.len() ==> (#[trigger] out@[i]).id < final(g)@.len(),
    {
        let ghost g0 = g@;
        let ghost w = 2 * inputs@.len() + 1;
        let mut out: Vec<Tensor> = Vec::new();
        let mut k: usize = 0;
        while k < self.neurons.len()
            invariant
                g.wf(),
                k <= self@.len(),
                self@.len() == self.neurons@.len(),
                w == 2 * inputs@.len() + 1,
                self.has_width(inputs@.len() as int),
                forall|j: int| 0 <= j < self@.len() ==> within(#[trigger] self@[j], g0.len() as int),
                forall|i: int| 0 <= i < inputs@.len() ==> (#[trigger] inputs@[i]).id < g0.len(),
                g0.len() + self@.len() * w < usize::MAX,
                g@ == g0 + layer_ops(g0.len() as int, self@.take(k as int), inputs@),
                out@ == layer_outputs(g0.len() as int, k as int, inputs@.len() as int),
                forall|i: int| 0 <= i < out@.len() ==> (#[trigger] out@[i]).id < g@.len(),
            decreases self@.len() - k,
        {
            let ghost before = g@;
            proof {
                lemma_layer_ops_len(g0.len() as int, self@.take(k as int), inputs@);
                assert(k * w + w <= self@.len() * w) by (nonlinear_arith)
                    requires
                        k < self@.len(),
                        w >= 1,
                ;
                assert(self@[k as int] == self.neurons@[k as int]@);
            }
            let y = self.neurons[k].forward(g, inputs);
            out.push(y);
            proof {
                let pre = self@.take(k as int + 1);
                assert(pre.drop_last() =~= self@.take(k as int));
                assert(pre.last() == self@[k as int]);
                assert(k * w + w == (k + 1) * w) by (nonlinear_arith);
                lemma_neuron_ops_len(before.len() as int, self@[k as int].0, self@[k as int].1, inputs@);
                assert(y.id == g0.len() + (k + 1) * w - 1);
                assert(g@ =~= g0 + layer_ops(g0.len() as int, pre, inputs@));
                assert(out@ =~= layer_outputs(g0.len() as int, k + 1, inputs@.len() as int));
            }
            k += 1;
        }
        assert(self@.take(self@.len() as int) =~= self@);
        out
    }

    /// The trainable leaves of every neuron, neuron by neuron.
    pub fn parameters(&self) -> (r: Vec<Tensor>)
        ensures
            r@ == layer_params(self@),
    {
        let mut params: Vec<Tensor> = Vec::new();
        let mut k: usize = 0;
        while k < self.neurons.len()
            invariant
                k <= self.neurons@.len(),
                params@ == layer_params(self@.take(k as int)),
            decreases self.neurons@.len() - k,
        {
            let mut p = self.neurons[k].parameters();
            params.append(&mut p);
            proof {
                let pre = self@.take(k as int + 1);
                assert(pre.drop_last() =~= self@.take(k as int));
                assert(pre.last() == self.neurons@[k as int]@);
            }
            k += 1;
            assert(params@ =~= layer_params(self@.take(k as int)));
        }
        assert(self@.take(self@.len() as int) =~= self@);
        params
    }
}

/// The input width of layer `k` of a network whose layers have `sizes`
/// neurons each and whose inputs have width `num_inputs`.
pub open spec fn width_in(num_inputs: int, sizes: Seq<int>, k: int) -> int {
    if k == 0 {
        num_inputs
    } else {
        sizes[k - 1]
    }
}

/// `sum over k of (width_in(k) + 1) * sizes[k]`: the weights and the bias of
/// every neuron of every layer.
pub open spec fn param_count(num_inputs: int, sizes: Seq<int>) -> int
    decreases sizes.len(),
{
    if sizes.len() == 0 {
        0
    } else {
        let k = sizes.len() - 1;
        param_count(num_inputs, sizes.drop_last()) + (width_in(num_inputs, sizes, k) + 1) * sizes[k]
    }
}

/// The number of neurons in each layer.
pub open spec fn sizes_of(ls: Seq<Seq<(Seq<Tensor>, Tensor)>>) -> Seq<int> {
    ls.map_values(|l: Seq<(Seq<Tensor>, Tensor)>| l.len() as int)
}

/// Every neuron of layer `k` reads as many inputs as the layer before it has
/// neurons, and those of the first layer read `num_inputs`.
pub open spec fn shaped(num_inputs: int, ls: Seq<Seq<(Seq<Tensor>, Tensor)>>) -> bool {
    forall|k: int, j: int|
        0 <= k < ls.len() && 0 <= j < ls[k].len() ==> (#[trigger] ls[k][j]).0.len() == width_in(
            num_inputs,
            sizes_of(ls),
            k,
        )
}

/// The trainable leaves of every layer, layer by layer.
pub open spec fn network_params(ls: Seq<Seq<(Seq<Tensor>, Tensor)>>) -> Seq<Tensor>
    decreases ls.len(),
{
    if ls.len() == 0 {
        Seq::empty()
    } else {
        network_params(ls.drop_last()) + layer_params(ls.last())
    }
}

/// The records of a forward pass through layers `ls` on inputs `x`, recorded
/// from position `base`.
pub open spec fn network_ops(base: int, ls: Seq<Seq<(Seq<Tensor>, Tensor)>>, x: Seq<Tensor>) -> Seq<Op>
    decreases ls.len(),
{
    if ls.len() == 0 {
        Seq::empty()
    } else {
        let before = network_ops(base, ls.drop_last(), x);
        before + layer_ops(base + before.len(), ls.last(), network_outputs(base, ls.drop_last(), x))
    }
}

/// The outputs of a forward pass through layers `ls` on inputs `x`, recorded
/// from position `base`: the inputs themselves when there are no layers.
pub open spec fn network_outputs(base: int, ls: Seq<Seq<(Seq<Tensor>, Tensor)>>, x: Seq<Tensor>) -> Seq<Tensor>
    decreases ls.len(),
{
    if ls.len() == 0 {
        x
    } else {
        let before = network_ops(base, ls.drop_last(), x);
        let prev = network_outputs(base, ls.drop_last(), x);
        layer_outputs(base + before.len(), ls.last().len() as int, prev.len() as int)
    }
}

proof fn lemma_layer_params_len(ns: Seq<(Seq<Tensor>, Tensor)>, width: int)
    requires
        forall|k: int| 0 <= k < ns.len() ==> (#[trigger] ns[k]).0.len() == width,
    ensures
        layer_params(ns).len() == ns.len() * (width + 1),
    decreases ns.len(),
{
    if ns.len() > 0 {
        lemma_layer_params_len(ns.drop_last(), width);
        assert(ns.last() == ns[ns.len() - 1]);
        assert((ns.len() - 1) * (width + 1) + width + 1 == ns.len() * (width + 1)) by (nonlinear_arith);
    }
}

/// A network whose input width is `num_inputs` and whose layers have
/// `sizes[0], ..., sizes[k-1]` neurons exposes
/// `sum over i of (width_in(i) + 1) * sizes[i]` trainable leaves.
pub proof fn lemma_parameter_count(num_inputs: int, sizes: Seq<int>, ls: Seq<Seq<(Seq<Tensor>, Tensor)>>)
    requires
        shaped(num_inputs, ls),
        sizes_of(ls) == sizes,
    ensures
        network_params(ls).len() == param_count(num_inputs, sizes),
    decreases ls.len(),
{
    if ls.len() > 0 {
        let k = ls.len() - 1;
        let dl = ls.drop_last();
        assert(sizes_of(dl) =~= sizes.drop_last());
        assert forall|i: int, j: int| 0 <= i < dl.len() && 0 <= j < dl[i].len() implies
            (#[trigger] dl[i][j]).0.len() == width_in(num_inputs, sizes_of(dl), i) by {
            assert(dl[i] == ls[i]);
            assert(ls[i][j].0.len() == width_in(num_inputs, sizes_of(ls), i));
        }
        lemma_parameter_count(num_inputs, sizes.drop_last(), dl);
        let w = width_in(num_inputs, sizes, k);
        assert forall|j: int| 0 <= j < ls.last().len() implies (#[trigger] ls.last()[j]).0.len() == w by {
            assert(ls[k][j].0.len() == width_in(num_inputs, sizes_of(ls), k));
        }
        lemma_layer_params_len(ls.last(), w);
        assert(ls.last().len() == sizes[k]);
        assert(ls.last().len() * (w + 1) == (w + 1) * sizes[k]) by (nonlinear_arith)
            requires
                ls.last().len() == sizes[k],
        ;
    }
}

/// A feed-forward network: layers applied in order, each reading the outputs
/// of the one before.
pub struct MLP {
    layers: Vec<Layer>,
    num_inputs: usize,
}

impl MLP {
    /// The neurons of each layer.
    pub closed spec fn view(&self) -> Seq<Seq<(Seq<Tensor>, Tensor)>> {
        self.layers@.map_values(|l: Layer| l@)
    }

    pub closed spec fn input_width(&self) -> int {
        self.num_inputs as int
    }

    /// The layers' widths chain up from the input width.
    pub open spec fn wf(&self) -> bool {
        shaped(self.input_width(), self@)
    }

    /// Every handle of the network denotes a node of a graph of `len` nodes.
    pub open spec fn within(&self, len: int) -> bool {
        forall|k: int, j: int| 0 <= k < self@.len() && 0 <= j < self@[k].len() ==> within(#[trigger] self@[k][j], len)
    }

    /// The number of inputs that the first layer reads.
    pub fn num_inputs(&self) -> (n: usize)
        ensures
            n == self.input_width(),
    {
        self.num_inputs
    }

    /// Records the leaves of every layer, first to last: a layer of
    /// `layer_sizes[k]` neurons reading the outputs of the layer before it.
    pub fn new(g: &mut Graph, num_inputs: usize, layer_sizes: &[usize]) -> (r: MLP)
        requires
            old(g).wf(),
            old(g)@.len() + param_count(num_inputs as int, layer_sizes@.map_values(|s: usize| s as int))
                < usize::MAX,
        ensures
            final(g).wf(),
            final(g)@ == old(g)@ + leaves(param_count(num_inputs as int, layer_sizes@.map_values(|s: usize| s as int))),
            r.wf(),
            r.input_width() == num_inputs,
            sizes_of(r@) == layer_sizes@.map_values(|s: usize| s as int),
            r.within(final(g)@.len() as int),
    {
        let ghost g0 = g@;
        let ghost sz = layer_sizes@.map_values(|s: usize| s as int);
        let mut layers: Vec<Layer> = Vec::new();
        let mut input_size: usize = num_inputs;
        let mut i: usize = 0;
        while i < layer_sizes.len()
            invariant
                g.wf(),
                i <= layer_sizes@.len(),
                sz == layer_sizes@.map_values(|s: usize| s as int),
                g0.len() + param_count(num_inputs as int, sz) < usize::MAX,
                g@ == g0 + leaves(param_count(num_inputs as int, sz.take(i as int))),
                layers@.len() == i,
                sizes_of(layers@.map_values(|l: Layer| l@)) == sz.take(i as int),
                shaped(num_inputs as int, layers@.map_values(|l: Layer| l@)),
                input_size == width_in(num_inputs as int, sz, i as int),
                forall|k: int, j: int|
                    0 <= k < i && 0 <= j < layers@[k]@.len() ==> within(#[trigger] layers@[k]@[j], g@.len() as int),
            decreases layer_sizes@.len() - i,
        {
            let ghost lv = layers@.map_values(|l: Layer| l@);
            proof {
                lemma_param_count_step(num_inputs as int, sz, i as int);
                assert forall|k: int| 0 <= k < sz.len() implies 0 <= #[trigger] sz[k] by {}
                lemma_param_count_prefix(num_inputs as int, sz, i as int + 1);
            }
            let out = layer_sizes[i];
            proof {
                assert(sz[i as int] == out);
                assert((input_size + 1) * out == out * (input_size + 1)) by (nonlinear_arith);
                let t = sz.take(i as int);
                assert forall|k: int| 0 <= k < t.len() implies 0 <= #[trigger] t[k] by {}
                lemma_param_count_prefix(num_inputs as int, t, 0);
                assert(t.take(0) =~= Seq::<int>::empty());
                assert(g@.len() == g0.len() + param_count(num_inputs as int, t));
            }
            let layer = Layer::new(g, input_size, out);
            layers.push(layer);
            proof {
                let nv = layers@.map_values(|l: Layer| l@);
                assert(nv =~= lv.push(layer@));
                assert(sizes_of(nv) =~= sz.take(i as int + 1));
                assert forall|k: int, j: int|
                    0 <= k < nv.len() && 0 <= j < nv[k].len() implies (#[trigger] nv[k][j]).0.len()
                        == width_in(num_inputs as int, sizes_of(nv), k) by {
                    if k < i {
                        assert(nv[k] == lv[k]);
                        assert(lv[k][j].0.len() == width_in(num_inputs as int, sizes_of(lv), k));
                    }
                }
                assert(g@ =~= g0 + leaves(param_count(num_inputs as int, sz.take(i as int + 1))));
                assert forall|k: int, j: int|
                    0 <= k < i + 1 && 0 <= j < layers@[k]@.len() implies within(
                        #[trigger] layers@[k]@[j],
                        g@.len() as int,
                    ) by {
                    if k < i {
                        assert(within(layers@[k]@[j], g@.len() as int - (out * (input_size + 1))));
                    }
                }
            }
            input_size = out;
            i += 1;
        }
        let r = MLP { layers, num_inputs };
        assert(sz.take(sz.len() as int) =~= sz);
        assert(r@ == layers@.map_values(|l: Layer| l@));
        r
    }

    /// Records the forward pass of every layer in order, each over the
    /// outputs of the one before, and returns the outputs of the last.
    pub fn forward(&self, g: &mut Graph, inputs: &[Tensor]) -> (out: Vec<Tensor>)
        requires
            old(g).wf(),
            self.wf(),
            self.within(old(g)@.len() as int),
            inputs@.len() == self.input_width(),
            forall|i: int| 0 <= i < inputs@.len() ==> (#[trigger] inputs@[i]).id < old(g)@.len(),
            old(g)@.len() + network_ops(old(g)@.len() as int, self@, inputs@).len() < usize::MAX,
        ensures
            final(g).wf(),
            final(g)@ == old(g)@ + network_ops(old(g)@.len() as int, self@, inputs@),
            out@ == network_outputs(old(g)@.len() as int, self@, inputs@),
    {
        let ghost g0 = g@;
        let ghost base = g0.len() as int;
        let ghost ls = self@;
        let mut current: Vec<Tensor> = copy_handles(inputs);
        let mut i: usize = 0;
        while i < self.layers.len()
            invariant
                g.wf(),
                ls == self@,
                ls.len() == self.layers@.len(),
                i <= ls.len(),
                self.wf(),
                self.within(g0.len() as int),
                base == g0.len(),
                base + network_ops(base, ls, inputs@).len() < usize::MAX,
                g@ == g0 + network_ops(base, ls.take(i as int), inputs@),
                current@ == network_outputs(base, ls.take(i as int), inputs@),
                current@.len() == width_in(self.input_width(), sizes_of(ls), i as int),
                forall|k: int| 0 <= k < current@.len() ==> (#[trigger] current@[k]).id < g@.len(),
            decreases ls.len() - i,
        {
            let ghost before = g@;
            let ghost pre = ls.take(i as int);
            let ghost nxt = ls.take(i as int + 1);
            proof {
                assert(nxt.drop_last() =~= pre);
                assert(nxt.last() == ls[i as int]);
                assert(self.layers@[i as int]@ == ls[i as int]);
                lemma_network_ops_prefix(base, ls, inputs@, i as int + 1);
                let w = current@.len() as int;
                assert forall|j: int| 0 <= j < ls[i as int].len() implies (#[trigger] ls[i as int][j]).0.len() == w by {}
                lemma_layer_ops_len(before.len() as int, ls[i as int], current@);
                assert forall|j: int| 0 <= j < ls[i as int].len() implies within(#[trigger] ls[i as int][j], before.len() as int) by {
                    assert(within(ls[i as int][j], g0.len() as int));
                }
            }
            let next = self.layers[i].forward(g, current.as_slice());
            proof {
                assert(g@ =~= g0 + network_ops(base, nxt, inputs@));
                assert(next@ == network_outputs(base, nxt, inputs@));
                if i + 1 < ls.len() {
                    assert(sizes_of(ls)[i as int] == ls[i as int].len());
                }
            }
            current = next;
            i += 1;
        }
        assert(ls.take(ls.len() as int) =~= ls);
        current
    }

    /// The trainable leaves of every layer, layer by layer.
    pub fn parameters(&self) -> (r: Vec<Tensor>)
        ensures
            r@ == network_params(self@),
    {
        let mut params: Vec<Tensor> = Vec::new();
        let mut k: usize = 0;
        while k < self.layers.len()
            invariant
                k <= self.layers@.len(),
                self@.len() == self.layers@.len(),
                params@ == network_params(self@.take(k as int)),
            decreases self.layers@.len() - k,
        {
            let mut p = self.layers[k].parameters();
            params.append(&mut p);
            proof {
                let pre = self@.take(k as int + 1);
                assert(pre.drop_last() =~= self@.take(k as int));
                assert(pre.last() == self.layers@[k as int]@);
            }
            k += 1;
            assert(params@ =~= network_params(self@.take(k as int)));
        }
        assert(self@.take(self@.len() as int) =~= self@);
        params
    }
}

fn copy_handles(xs: &[Tensor]) -> (r: Vec<Tensor>)
    ensures
        r@ == xs@,
{
    let mut r: Vec<Tensor> = Vec::new();
    let mut i: usize = 0;
    while i < xs.len()
        invariant
            i <= xs@.len(),
            r@ == xs@.take(i as int),
        decreases xs@.len() - i,
    {
        r.push(xs[i]);
        i += 1;
        assert(r@ =~= xs@.take(i as int));
    }
    assert(xs@.take(xs@.len() as int) =~= xs@);
    r
}

proof fn lemma_param_count_step(num_inputs: int, sizes: Seq<int>, i: int)
    requires
        0 <= i < sizes.len(),
    ensures
        param_count(num_inputs, sizes.take(i + 1)) == param_count(num_inputs, sizes.take(i))
            + (width_in(num_inputs, sizes, i) + 1) * sizes[i],
{
    let t = sizes.take(i + 1);
    assert(t.drop_last() =~= sizes.take(i));
    assert(width_in(num_inputs, t, i) == width_in(num_inputs, sizes, i));
}

proof fn lemma_param_count_prefix(num_inputs: int, sizes: Seq<int>, i: int)
    requires
        0 <= i <= sizes.len(),
        0 <= num_inputs,
        forall|k: int| 0 <= k < sizes.len() ==> 0 <= #[trigger] sizes[k],
    ensures
        param_count(num_inputs, sizes.take(i)) <= param_count(num_inputs, sizes),
    decreases sizes.len(),
{
    if i == sizes.len() {
        assert(sizes.take(i) =~= sizes);
    } else {
        let dl = sizes.drop_last();
        assert(sizes.take(i) =~= dl.take(i));
        lemma_param_count_prefix(num_inputs, dl, i);
        let k = sizes.len() - 1;
        let w = width_in(num_inputs, sizes, k);
        assert(w >= 0);
        assert((w + 1) * sizes[k] >= 0) by (nonlinear_arith)
            requires
                w >= 0,
                sizes[k] >= 0,
        ;
    }
}

proof fn lemma_network_ops_prefix(base: int, ls: Seq<Seq<(Seq<Tensor>, Tensor)>>, x: Seq<Tensor>, i: int)
    requires
        0 <= i <= ls.len(),
    ensures
        network_ops(base, ls.take(i), x).len() <= network_ops(base, ls, x).len(),
    decreases ls.len(),
{
    if i == ls.len() {
        assert(ls.take(i) =~= ls);
    } else {
        let dl = ls.drop_last();
        assert(ls.take(i) =~= dl.take(i));
        lemma_network_ops_prefix(base, dl, x, i);
    }
}

} // verus!
