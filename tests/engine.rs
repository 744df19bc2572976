use micrograd::engine::{Graph, Kids, Op, Real, Scalar};
use micrograd::nn::{Layer, Neuron, NeuronError, MLP};

#[derive(Clone, Copy, Debug, PartialEq)]
struct F(f64);

impl Real for F {
    fn zero() -> Self {
        Self::spec_zero()
    }
    fn one() -> Self {
        Self::spec_one()
    }
    fn from_i32(n: i32) -> Self {
        Self::spec_from_i32(n)
    }
    fn plus(self, o: Self) -> Self {
        self.spec_plus(o)
    }
    fn minus(self, o: Self) -> Self {
        self.spec_minus(o)
    }
    fn times(self, o: Self) -> Self {
        self.spec_times(o)
    }
    fn negate(self) -> Self {
        self.spec_negate()
    }
    fn powi(self, n: i32) -> Self {
        self.spec_powi(n)
    }
    fn tanh(self) -> Self {
        self.spec_tanh()
    }
    fn spec_zero() -> Self {
        F(0.0)
    }
    fn spec_one() -> Self {
        F(1.0)
    }
    fn spec_from_i32(n: i32) -> Self {
        F(n as f64)
    }
    fn spec_plus(self, o: Self) -> Self {
        F(self.0 + o.0)
    }
    fn spec_minus(self, o: Self) -> Self {
        F(self.0 - o.0)
    }
    fn spec_times(self, o: Self) -> Self {
        F(self.0 * o.0)
    }
    fn spec_negate(self) -> Self {
        F(-self.0)
    }
    fn spec_powi(self, n: i32) -> Self {
        F(self.0.powi(n))
    }
    fn spec_tanh(self) -> Self {
        F(self.0.tanh())
    }
}

fn leaf(g: &mut Graph<F>, x: f64, label: &str) -> Scalar {
    Scalar::new(g, F(x), label)
}

fn close(a: f64, b: f64) -> bool {
    (a - b).abs() < 1e-9
}

#[test]
fn it_works() {
    let mut g: Graph<F> = Graph::new();
    let a = leaf(&mut g, 1.0, "a");
    let b = leaf(&mut g, 2.0, "b");
    let s = a.add(&mut g, b);
    assert!(s.data(&g) == F(3.0));

    let a = leaf(&mut g, 1.0, "a");
    let s = a.add(&mut g, a);
    assert!(s.data(&g) == F(2.0));
    let s = a.sub(&mut g, a);
    assert!(s.data(&g) == F(0.0));
    let s = a.mul(&mut g, a);
    assert!(s.data(&g) == F(1.0));

    let x = leaf(&mut g, 1.0, "");
    let y = leaf(&mut g, 2.0, "");
    let s = x.sub(&mut g, y);
    assert!(s.data(&g) == F(-1.0));
    let x = leaf(&mut g, 2.0, "");
    let y = leaf(&mut g, 3.0, "");
    let s = x.mul(&mut g, y);
    assert!(s.data(&g) == F(6.0));

    let a = leaf(&mut g, 1.0, "a");
    let b = leaf(&mut g, 2.0, "b");
    let c = leaf(&mut g, 4.0, "c");
    let d = a.add(&mut g, b);
    let e = d.mul(&mut g, c);

    let (nodes, edges) = e.trace(&g);
    assert_eq!(
        nodes.iter().map(|n| n.data(&g).0).collect::<Vec<f64>>(),
        vec![12.0, 3.0, 4.0, 1.0, 2.0]
    );
    assert_eq!(edges, vec![(1, 0), (2, 0), (3, 1), (4, 1)]);
}

#[test]
fn forward_values_of_each_operation() {
    let mut g: Graph<F> = Graph::new();
    let x = leaf(&mut g, 1.5, "x");
    let y = leaf(&mut g, -2.0, "y");
    assert_eq!(x.add(&mut g, y).data(&g), F(-0.5));
    assert_eq!(x.sub(&mut g, y).data(&g), F(3.5));
    assert_eq!(x.mul(&mut g, y).data(&g), F(-3.0));
    assert_eq!(y.powi(&mut g, 3).data(&g), F(-8.0));
    assert_eq!(y.powi(&mut g, 0).data(&g), F(1.0));
    assert!(close(x.tanh(&mut g).data(&g).0, 1.5f64.tanh()));
}

#[test]
fn new_nodes_record_operation_and_operands() {
    let mut g: Graph<F> = Graph::new();
    let x = leaf(&mut g, 1.0, "x");
    let y = leaf(&mut g, 2.0, "y");
    let s = x.sub(&mut g, y);
    assert_eq!(g.op[s.id], Some(Op::Sub));
    assert_eq!(g.kids[s.id], Kids::Two(x.id, y.id));
    let p = s.powi(&mut g, 2);
    assert_eq!(g.op[p.id], Some(Op::Powi(2)));
    assert_eq!(g.kids[p.id], Kids::One(s.id));
    assert_eq!(g.op[x.id], None);
    assert_eq!(g.kids[x.id], Kids::Zero);
    assert_eq!(g.size(), 4);
}

#[test]
fn forward_values_are_captured_at_construction() {
    let mut g: Graph<F> = Graph::new();
    let x = leaf(&mut g, 1.0, "x");
    let y = leaf(&mut g, 2.0, "y");
    let s = x.add(&mut g, y);
    x.set_data(&mut g, F(10.0));
    assert_eq!(x.data(&g), F(10.0));
    assert_eq!(s.data(&g), F(3.0));
}

#[test]
fn labels_are_kept_and_renamed() {
    let mut g: Graph<F> = Graph::new();
    let x = leaf(&mut g, 1.0, "x");
    assert_eq!(g.label[x.id], "x");
    x.label(&mut g, "input");
    assert_eq!(g.label[x.id], "input");
    assert_eq!(x.data(&g), F(1.0));
}

#[test]
fn self_sum_doubles_value_and_gradient() {
    let mut g: Graph<F> = Graph::new();
    let a = leaf(&mut g, 3.5, "a");
    let d = a.add(&mut g, a);
    assert_eq!(d.data(&g), F(7.0));
    d.backward(&mut g);
    assert_eq!(a.grad(&g), F(2.0));
    assert_eq!(d.grad(&g), F(1.0));
    let (nodes, edges) = d.trace(&g);
    assert_eq!(nodes, vec![d, a]);
    assert_eq!(edges, vec![(1, 0), (1, 0)]);
}

#[test]
fn local_gradient_rules() {
    let mut g: Graph<F> = Graph::new();
    let a = leaf(&mut g, 3.0, "a");
    let b = leaf(&mut g, -4.0, "b");
    let s = a.sub(&mut g, b);
    s.backward(&mut g);
    assert_eq!(a.grad(&g), F(1.0));
    assert_eq!(b.grad(&g), F(-1.0));

    let m = a.mul(&mut g, b);
    m.backward(&mut g);
    assert_eq!(a.grad(&g), F(-4.0));
    assert_eq!(b.grad(&g), F(3.0));

    let p = a.powi(&mut g, 3);
    p.backward(&mut g);
    assert_eq!(p.data(&g), F(27.0));
    assert_eq!(a.grad(&g), F(27.0));

    let t = b.tanh(&mut g);
    t.backward(&mut g);
    let th = (-4.0f64).tanh();
    assert!(close(b.grad(&g).0, 1.0 - th * th));
}

#[test]
fn backward_resets_before_each_pass() {
    let mut g: Graph<F> = Graph::new();
    let a = leaf(&mut g, 2.0, "a");
    let b = leaf(&mut g, 5.0, "b");
    let m = a.mul(&mut g, b);
    m.backward(&mut g);
    assert_eq!(a.grad(&g), F(5.0));
    m.backward(&mut g);
    assert_eq!(a.grad(&g), F(5.0));
    assert_eq!(b.grad(&g), F(2.0));
    b.set_data(&mut g, F(-1.0));
    m.backward(&mut g);
    assert_eq!(a.grad(&g), F(-1.0));
    assert_eq!(b.grad(&g), F(2.0));
    assert_eq!(m.grad(&g), F(1.0));
}

#[test]
fn backward_leaves_unreached_nodes_alone() {
    let mut g: Graph<F> = Graph::new();
    let a = leaf(&mut g, 2.0, "a");
    let b = leaf(&mut g, 5.0, "b");
    let c = leaf(&mut g, 7.0, "c");
    let m = a.mul(&mut g, b);
    let n = m.add(&mut g, c);
    n.backward(&mut g);
    assert_eq!(c.grad(&g), F(1.0));
    m.backward(&mut g);
    assert_eq!(c.grad(&g), F(1.0));
    assert_eq!(n.grad(&g), F(1.0));
    assert_eq!(a.grad(&g), F(5.0));
}

#[test]
fn shared_nodes_at_different_depths() {
    // w = x^2 * x + x^2, so dw/dx = 3x^2 + 2x.
    let mut g: Graph<F> = Graph::new();
    let x = leaf(&mut g, 3.0, "x");
    let y = x.mul(&mut g, x);
    let z = y.mul(&mut g, x);
    let w = z.add(&mut g, y);
    assert_eq!(w.data(&g), F(36.0));
    w.backward(&mut g);
    assert_eq!(x.grad(&g), F(33.0));
    assert_eq!(y.grad(&g), F(4.0));
}

fn neuron_value(xs: [f64; 2], ws: [f64; 2], b: f64) -> (f64, Vec<f64>) {
    let mut g: Graph<F> = Graph::new();
    let x1 = leaf(&mut g, xs[0], "x1");
    let x2 = leaf(&mut g, xs[1], "x2");
    let w1 = leaf(&mut g, ws[0], "w1");
    let w2 = leaf(&mut g, ws[1], "w2");
    let bb = leaf(&mut g, b, "b");
    let p1 = x1.mul(&mut g, w1);
    let p2 = x2.mul(&mut g, w2);
    let s = p1.add(&mut g, p2);
    let s = s.add(&mut g, bb);
    let o = s.tanh(&mut g);
    let e = o.powi(&mut g, 2);
    e.backward(&mut g);
    let grads = [x1, x2, w1, w2, bb].iter().map(|n| n.grad(&g).0).collect();
    (e.data(&g).0, grads)
}

#[test]
fn gradients_match_central_differences() {
    let xs = [2.0, 0.0];
    let ws = [-3.0, 1.0];
    let b = 6.2;
    let (_, grads) = neuron_value(xs, ws, b);
    let h = 1e-5;
    let mut inputs = vec![xs[0], xs[1], ws[0], ws[1], b];
    for i in 0..5 {
        let base = inputs[i];
        inputs[i] = base + h;
        let (up, _) = neuron_value([inputs[0], inputs[1]], [inputs[2], inputs[3]], inputs[4]);
        inputs[i] = base - h;
        let (down, _) = neuron_value([inputs[0], inputs[1]], [inputs[2], inputs[3]], inputs[4]);
        inputs[i] = base;
        let numeric = (up - down) / (2.0 * h);
        assert!((numeric - grads[i]).abs() < 1e-3, "input {i}: {numeric} vs {}", grads[i]);
    }
}

#[test]
fn traverse_lists_reachable_nodes_once_breadth_first() {
    let mut g: Graph<F> = Graph::new();
    let a = leaf(&mut g, 1.0, "a");
    let unused = leaf(&mut g, 9.0, "u");
    let b = leaf(&mut g, 2.0, "b");
    let c = a.mul(&mut g, b);
    let d = c.add(&mut g, a);
    let all = d.traverse(&g);
    assert_eq!(all, vec![d, c, a, b]);
    assert!(!all.contains(&unused));
    assert_eq!(a.traverse(&g), vec![a]);
}

#[test]
fn traverse_of_sum_times_leaf() {
    let mut g: Graph<F> = Graph::new();
    let a = leaf(&mut g, 1.0, "a");
    let b = leaf(&mut g, 2.0, "b");
    let c = leaf(&mut g, 4.0, "c");
    let d = a.add(&mut g, b);
    let e = d.mul(&mut g, c);
    let values: Vec<f64> = e.traverse(&g).iter().map(|n| n.data(&g).0).collect();
    assert_eq!(values, vec![12.0, 3.0, 4.0, 1.0, 2.0]);
}

#[test]
fn topo_order_puts_users_before_operands() {
    let mut g: Graph<F> = Graph::new();
    let a = leaf(&mut g, 1.0, "a");
    let b = leaf(&mut g, 2.0, "b");
    let c = a.mul(&mut g, b);
    let d = c.add(&mut g, a);
    assert_eq!(d.topo_order(&g), vec![d, c, b, a]);
}

#[test]
fn trace_of_a_leaf_is_the_leaf() {
    let mut g: Graph<F> = Graph::new();
    let a = leaf(&mut g, 1.0, "a");
    let (nodes, edges) = a.trace(&g);
    assert_eq!(nodes, vec![a]);
    assert!(edges.is_empty());
}

#[test]
fn neuron_output_is_weighted_sum_plus_bias() {
    let mut g: Graph<F> = Graph::new();
    let n = Neuron::new(&mut g, &vec![F(0.5), F(-1.0)], false);
    assert_eq!(n.parameters().len(), 3);
    assert_eq!(n.b.data(&g), F(0.0));
    assert_eq!(n.w[1].data(&g), F(-1.0));
    assert_eq!(n.parameters()[2], n.b);
    let x = vec![leaf(&mut g, 4.0, "x0"), leaf(&mut g, 3.0, "x1")];
    let o = n.output(&mut g, &x).unwrap();
    assert_eq!(o.data(&g), F(-1.0));
    let t = Neuron::new(&mut g, &vec![F(0.5), F(-1.0)], true);
    let o = t.output(&mut g, &x).unwrap();
    assert!(close(o.data(&g).0, (-1.0f64).tanh()));
    assert_eq!(g.op[o.id], Some(Op::Tanh));
}

#[test]
fn neuron_length_mismatch_adds_no_node() {
    let mut g: Graph<F> = Graph::new();
    let n = Neuron::new(&mut g, &vec![F(0.1), F(0.2), F(0.3)], true);
    let x = vec![leaf(&mut g, 1.0, ""), leaf(&mut g, 2.0, "")];
    let before = g.size();
    assert_eq!(n.output(&mut g, &x), Err(NeuronError::InputLenErr));
    assert_eq!(g.size(), before);
}

#[test]
fn layer_outputs_one_node_per_neuron() {
    let mut g: Graph<F> = Graph::new();
    let l = Layer::new(&mut g, 2, 3, false, &vec![F(1.0), F(0.0), F(0.0), F(1.0), F(1.0), F(1.0)]);
    assert_eq!(l.parameters().len(), 9);
    let x = vec![leaf(&mut g, 2.0, ""), leaf(&mut g, 5.0, "")];
    let out = l.output(&mut g, &x).unwrap();
    let values: Vec<f64> = out.iter().map(|s| s.data(&g).0).collect();
    assert_eq!(values, vec![2.0, 5.0, 7.0]);
    let before = g.size();
    assert_eq!(l.output(&mut g, &vec![x[0]]), Err(NeuronError::InputLenErr));
    assert_eq!(g.size(), before);
}

#[test]
fn empty_layer_accepts_any_input() {
    let mut g: Graph<F> = Graph::new();
    let l = Layer::new(&mut g, 3, 0, true, &vec![]);
    let x = vec![leaf(&mut g, 2.0, "")];
    assert_eq!(l.output(&mut g, &x), Ok(vec![]));
}

#[test]
fn mlp_shape() {
    let mut g: Graph<F> = Graph::new();
    let weights: Vec<F> = (0..(3 * 4 + 4 * 4 + 4 * 1)).map(|i| F((i % 7) as f64 / 10.0 - 0.3)).collect();
    let mlp = MLP::new(&mut g, 3, &vec![4, 4, 1], &weights);
    assert_eq!(mlp.parameters().len(), 3 * 4 + 4 + 4 * 4 + 4 + 4 * 1 + 1);
    assert_eq!(g.size(), 41);
    let x = vec![leaf(&mut g, 2.0, ""), leaf(&mut g, 3.0, ""), leaf(&mut g, -1.0, "")];
    let out = mlp.output(&mut g, &x).unwrap();
    assert_eq!(out.len(), 1);
    assert!(mlp.layers[0].neurons[0].nonlin);
    assert!(!mlp.layers[2].neurons[0].nonlin);
    out[0].backward(&mut g);
    let before = g.size();
    assert_eq!(mlp.output(&mut g, &vec![x[0], x[1]]), Err(NeuronError::InputLenErr));
    assert_eq!(g.size(), before);
}

#[test]
fn mlp_without_layers_passes_input_through() {
    let mut g: Graph<F> = Graph::new();
    let mlp = MLP::new(&mut g, 2, &vec![], &vec![]);
    let x = vec![leaf(&mut g, 2.0, "")];
    assert_eq!(mlp.output(&mut g, &x), Ok(x.clone()));
    assert!(mlp.parameters().is_empty());
}

#[test]
fn mlp_last_layer_is_linear() {
    let mut g: Graph<F> = Graph::new();
    // one hidden neuron with weight 1, then a linear neuron with weight 2
    let mlp = MLP::new(&mut g, 1, &vec![1, 1], &vec![F(1.0), F(2.0)]);
    let x = vec![leaf(&mut g, 0.5, "")];
    let out = mlp.output(&mut g, &x).unwrap();
    assert!(close(out[0].data(&g).0, 2.0 * 0.5f64.tanh()));
}

#[test]
fn neuron_output_after_parameter_update() {
    let mut g: Graph<F> = Graph::new();
    let n = Neuron::new(&mut g, &vec![F(0.3), F(0.7)], false);
    let p = n.parameters();
    p[0].set_data(&mut g, F(2.0));
    p[1].set_data(&mut g, F(-1.0));
    p[2].set_data(&mut g, F(0.5));
    let x = vec![leaf(&mut g, 3.0, ""), leaf(&mut g, 4.0, "")];
    let o = n.output(&mut g, &x).unwrap();
    assert_eq!(o.data(&g), F(2.5));
}

#[test]
fn layer_outputs_match_each_neuron() {
    let mut g: Graph<F> = Graph::new();
    let l = Layer::new(&mut g, 2, 2, true, &vec![F(0.5), F(-0.25), F(1.0), F(2.0)]);
    let x = vec![leaf(&mut g, 1.0, ""), leaf(&mut g, -3.0, "")];
    let out = l.output(&mut g, &x).unwrap();
    for (k, neuron) in l.neurons.iter().enumerate() {
        let own = neuron.output(&mut g, &x).unwrap();
        assert_eq!(out[k].data(&g), own.data(&g));
    }
}

#[test]
fn new_parameters_are_fresh_leaves_with_zero_gradient() {
    let mut g: Graph<F> = Graph::new();
    let before = leaf(&mut g, 5.0, "x");
    let weights: Vec<F> = (0..(2 * 3 + 3 * 1)).map(|i| F(i as f64)).collect();
    let mlp = MLP::new(&mut g, 2, &vec![3, 1], &weights);
    let params = mlp.parameters();
    assert_eq!(params.len(), 2 * 3 + 3 + 3 + 1);
    for (i, p) in params.iter().enumerate() {
        assert_eq!(p.id, before.id + 1 + i);
        assert_eq!(p.grad(&g), F(0.0));
        assert_eq!(g.op[p.id], None);
    }
    // weights in order, a zero bias after each neuron's weights
    let values: Vec<f64> = params.iter().map(|p| p.data(&g).0).collect();
    assert_eq!(values, vec![0.0, 1.0, 0.0, 2.0, 3.0, 0.0, 4.0, 5.0, 0.0, 6.0, 7.0, 8.0, 0.0]);
    assert_eq!(mlp.layers[1].neurons[0].w[2].data(&g), F(8.0));
}
