use nanograd::neuron::{Layer, Neuron, MLP};
use nanograd::tensor::{Graph, Op, Tensor};

#[test]
fn neuron_new_records_weights_then_bias() {
    let mut g = Graph::new();
    let _x = Tensor::new(&mut g);
    let n = Neuron::new(&mut g, 3);
    assert_eq!(g.len(), 5);
    let params = n.parameters();
    let ids: Vec<usize> = params.iter().map(|t| t.id).collect();
    assert_eq!(ids, vec![1, 2, 3, 4]);
}

#[test]
fn neuron_forward_records_weighted_sum_bias_and_relu() {
    let mut g = Graph::new();
    let n = Neuron::new(&mut g, 2); // w0 = 0, w1 = 1, b = 2
    let x0 = Tensor::new(&mut g); // 3
    let x1 = Tensor::new(&mut g); // 4
    let out = n.forward(&mut g, &[x0, x1]);
    assert_eq!(out.id, 9);
    assert_eq!(g.op(5), Op::Mul(0, 3));
    assert_eq!(g.op(6), Op::Mul(1, 4));
    assert_eq!(g.op(7), Op::Add(5, 6));
    assert_eq!(g.op(8), Op::Add(7, 2));
    assert_eq!(g.op(9), Op::Relu(8));
    assert_eq!(g.len(), 10);
}

#[test]
fn neuron_without_inputs_is_relu_of_bias() {
    let mut g = Graph::new();
    let n = Neuron::new(&mut g, 0);
    let out = n.forward(&mut g, &[]);
    assert_eq!(out.id, 1);
    assert_eq!(g.op(1), Op::Relu(0));
}

#[test]
fn layer_outputs_one_node_per_neuron() {
    let mut g = Graph::new();
    let layer = Layer::new(&mut g, 2, 3);
    assert_eq!(g.len(), 9);
    assert_eq!(layer.parameters().len(), 9);
    let x0 = Tensor::new(&mut g);
    let x1 = Tensor::new(&mut g);
    let outs = layer.forward(&mut g, &[x0, x1]);
    let ids: Vec<usize> = outs.iter().map(|t| t.id).collect();
    assert_eq!(ids, vec![15, 20, 25]);
    for t in &outs {
        assert!(matches!(g.op(t.id), Op::Relu(_)));
    }
}

#[test]
fn network_parameter_count() {
    let mut g = Graph::new();
    let mlp = MLP::new(&mut g, 2, &[8, 1]);
    assert_eq!(mlp.parameters().len(), (2 + 1) * 8 + (8 + 1) * 1);
    assert_eq!(g.len(), 33);
    let mut g2 = Graph::new();
    let deeper = MLP::new(&mut g2, 3, &[4, 4, 1]);
    assert_eq!(deeper.parameters().len(), 4 * 4 + 5 * 4 + 5);
    assert_eq!(deeper.num_inputs(), 3);
}

#[test]
fn network_parameters_are_distinct_leaves() {
    let mut g = Graph::new();
    let mlp = MLP::new(&mut g, 2, &[3, 2]);
    let params = mlp.parameters();
    for (i, p) in params.iter().enumerate() {
        assert_eq!(g.op(p.id), Op::Leaf);
        for q in &params[i + 1..] {
            assert_ne!(p.id, q.id);
        }
    }
}

#[test]
fn network_forward_chains_layers() {
    let mut g = Graph::new();
    let mlp = MLP::new(&mut g, 2, &[8, 1]);
    let x0 = Tensor::new(&mut g);
    let x1 = Tensor::new(&mut g);
    let before = g.len();
    let out = mlp.forward(&mut g, &[x0, x1]);
    assert_eq!(out.len(), 1);
    // 8 neurons of width 2 (5 records each), then one of width 8 (17 records)
    assert_eq!(g.len(), before + 8 * 5 + 17);
    assert_eq!(out[0].id, g.len() - 1);
    let order = out[0].build_reverse_top_order(&g);
    assert_eq!(order.len(), g.len());
}

#[test]
fn network_without_layers_returns_inputs() {
    let mut g = Graph::new();
    let mlp = MLP::new(&mut g, 2, &[]);
    let x0 = Tensor::new(&mut g);
    let x1 = Tensor::new(&mut g);
    let out = mlp.forward(&mut g, &[x0, x1]);
    assert_eq!(out, vec![x0, x1]);
    assert_eq!(mlp.parameters().len(), 0);
}
