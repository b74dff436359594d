use nanograd::backward::Step;
use nanograd::tensor::{Graph, Op, Tensor};

#[test]
fn leaf_and_operations_record_their_operands() {
    let mut g = Graph::new();
    let a = Tensor::new(&mut g);
    let b = Tensor::new(&mut g);
    let s = a.add(&mut g, &b);
    let p = a.mul(&mut g, &b);
    let q = a.pow(&mut g);
    let r = a.relu(&mut g);
    let d = a.sub(&mut g, &b);
    assert_eq!((a.id, b.id, s.id, p.id, q.id, r.id, d.id), (0, 1, 2, 3, 4, 5, 6));
    assert_eq!(g.len(), 7);
    assert_eq!(g.op(0), Op::Leaf);
    assert_eq!(g.op(1), Op::Leaf);
    assert_eq!(g.op(2), Op::Add(0, 1));
    assert_eq!(g.op(3), Op::Mul(0, 1));
    assert_eq!(g.op(4), Op::Pow(0));
    assert_eq!(g.op(5), Op::Relu(0));
    assert_eq!(g.op(6), Op::Sub(0, 1));
}

#[test]
fn composite_gradient_schedule() {
    // c = a * b, d = c + a, e = d ^ 2
    let mut g = Graph::new();
    let a = Tensor::new(&mut g);
    let b = Tensor::new(&mut g);
    let c = a.mul(&mut g, &b);
    let d = c.add(&mut g, &a);
    let e = d.pow(&mut g);
    assert_eq!(e.build_reverse_top_order(&g), vec![0, 1, 2, 3, 4]);
    let steps = e.backward(&g);
    assert_eq!(
        steps,
        vec![
            Step::Power { from: 4, to: 3 },
            Step::Pass { from: 3, to: 2 },
            Step::Pass { from: 3, to: 0 },
            Step::Scale { from: 2, to: 0, by: 1 },
            Step::Scale { from: 2, to: 1, by: 0 },
        ]
    );
}

#[test]
fn relu_gates_its_operand() {
    let mut g = Graph::new();
    let a = Tensor::new(&mut g);
    let b = a.relu(&mut g);
    assert_eq!(b.backward(&g), vec![Step::Gate { from: 1, to: 0 }]);
}

#[test]
fn shared_operand_receives_both_contributions() {
    let mut g = Graph::new();
    let x = Tensor::new(&mut g);
    let y = x.mul(&mut g, &x);
    assert_eq!(y.build_reverse_top_order(&g), vec![0, 1]);
    assert_eq!(
        y.backward(&g),
        vec![Step::Scale { from: 1, to: 0, by: 0 }, Step::Scale { from: 1, to: 0, by: 0 }]
    );
}

#[test]
fn sub_passes_and_negates() {
    let mut g = Graph::new();
    let a = Tensor::new(&mut g);
    let b = Tensor::new(&mut g);
    let d = a.sub(&mut g, &b);
    assert_eq!(
        d.backward(&g),
        vec![Step::Pass { from: 2, to: 0 }, Step::Negate { from: 2, to: 1 }]
    );
}

#[test]
fn leaf_backward_has_no_steps() {
    let mut g = Graph::new();
    let a = Tensor::new(&mut g);
    assert_eq!(a.build_reverse_top_order(&g), vec![0]);
    assert_eq!(a.backward(&g), Vec::<Step>::new());
}

#[test]
fn order_visits_diamond_once_and_skips_unrelated_nodes() {
    let mut g = Graph::new();
    let x = Tensor::new(&mut g); // 0
    let unrelated = Tensor::new(&mut g); // 1
    let l = x.relu(&mut g); // 2
    let r = x.pow(&mut g); // 3
    let _other = unrelated.add(&mut g, &x); // 4
    let top = l.add(&mut g, &r); // 5
    let order = top.build_reverse_top_order(&g);
    assert_eq!(order, vec![0, 2, 3, 5]);
    let steps = top.backward(&g);
    assert_eq!(
        steps,
        vec![
            Step::Pass { from: 5, to: 2 },
            Step::Pass { from: 5, to: 3 },
            Step::Power { from: 3, to: 0 },
            Step::Gate { from: 2, to: 0 },
        ]
    );
}

fn step_ends(s: &Step) -> (usize, usize) {
    match *s {
        Step::Pass { from, to } => (from, to),
        Step::Negate { from, to } => (from, to),
        Step::Scale { from, to, .. } => (from, to),
        Step::Power { from, to } => (from, to),
        Step::Gate { from, to } => (from, to),
    }
}

#[test]
fn every_node_is_fed_before_it_fires() {
    let mut g = Graph::new();
    let a = Tensor::new(&mut g);
    let b = Tensor::new(&mut g);
    let c = a.mul(&mut g, &b);
    let d = c.add(&mut g, &a);
    let e = d.sub(&mut g, &c);
    let f = e.mul(&mut g, &d);
    let h = f.relu(&mut g);
    let k = h.add(&mut g, &b);
    let steps = k.backward(&g);
    assert_eq!(steps.len(), 11);
    for (s, st) in steps.iter().enumerate() {
        let (from, _) = step_ends(st);
        for (t, other) in steps.iter().enumerate() {
            let (_, to) = step_ends(other);
            if to == from {
                assert!(t < s);
            }
        }
    }
}

#[test]
fn truncate_forgets_later_nodes() {
    let mut g = Graph::new();
    let a = Tensor::new(&mut g);
    let b = Tensor::new(&mut g);
    let _c = a.mul(&mut g, &b);
    g.truncate(2);
    assert_eq!(g.len(), 2);
    let d = a.add(&mut g, &b);
    assert_eq!(d.id, 2);
    assert_eq!(g.op(2), Op::Add(0, 1));
}
