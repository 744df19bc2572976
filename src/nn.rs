use crate::engine::{Graph, Kids, Op, Real, Scalar};
use vstd::prelude::*;

verus! {

/// The one way a forward pass can fail: an input of the wrong length.
#[derive(Clone, Copy, Debug, PartialEq, Eq, Structural)]
pub enum NeuronError {
    InputLenErr,
}

/// The value `0 + x[0]*w[0] + ... + x[k-1]*w[k-1]`, added left to right,
/// where `x[i]` and `w[i]` are the values in `data` of `xs[i]` and `ws[i]`.
pub open spec fn dot_value<V: Real>(data: Seq<V>, xs: Seq<Scalar>, ws: Seq<Scalar>, k: nat) -> V
    decreases k,
{
    if k == 0 {
        V::spec_zero()
    } else {
        dot_value(data, xs, ws, (k - 1) as nat).spec_plus(
            data[xs[k - 1].id as int].spec_times(data[ws[k - 1].id as int]),
        )
    }
}

/// Node `s` is the running sum `0 + x[0]*w[0] + ... + x[k-1]*w[k-1]`,
/// added left to right and starting from a fresh leaf, and holds its value.
pub open spec fn dot_node<V: Real>(g: &Graph<V>, s: int, xs: Seq<Scalar>, ws: Seq<Scalar>, k: nat) -> bool
    decreases k,
{
    &&& 0 <= s < g.len()
    &&& g.data@[s] == dot_value(g.data@, xs, ws, k)
    &&& if k == 0 {
        g.op@[s] == None::<Op> && g.kids@[s] == Kids::Zero
    } else {
        g.op@[s] == Some(Op::Add) && match g.kids@[s] {
            Kids::Two(l, m) => {
                &&& dot_node(g, l as int, xs, ws, (k - 1) as nat)
                &&& m < g.len()
                &&& g.op@[m as int] == Some(Op::Mul)
                &&& g.kids@[m as int] == Kids::Two(xs[k - 1].id, ws[k - 1].id)
            },
            _ => false,
        }
    }
}

/// The operands named by a running sum are older than it.
pub proof fn lemma_dot_ids<V: Real>(g: &Graph<V>, s: int, xs: Seq<Scalar>, ws: Seq<Scalar>, k: nat)
    requires
        g.wf(),
        dot_node(g, s, xs, ws, k),
    ensures
        forall|i: int| 0 <= i < k ==> xs[i].id < s && ws[i].id < s,
    decreases k,
{
    if k > 0 {
        match g.kids@[s] {
            Kids::Two(l, m) => {
                lemma_dot_ids(g, l as int, xs, ws, (k - 1) as nat);
                assert(g.children(s) =~= seq![l, m]);
                assert(g.children(s)[0] < s && g.children(s)[1] < s);
                assert(g.children(m as int) =~= seq![xs[k - 1].id, ws[k - 1].id]);
                assert(g.children(m as int)[0] < m && g.children(m as int)[1] < m);
            },
            _ => {},
        }
    }
}

/// The running sum only reads the values of its operands.
pub proof fn lemma_dot_value_same<V: Real>(d1: Seq<V>, d2: Seq<V>, xs: Seq<Scalar>, ws: Seq<Scalar>, k: nat, n: int)
    requires
        n <= d1.len(),
        n <= d2.len(),
        d1.take(n) == d2.take(n),
        forall|i: int| 0 <= i < k ==> xs[i].id < n && ws[i].id < n,
    ensures
        dot_value(d1, xs, ws, k) == dot_value(d2, xs, ws, k),
    decreases k,
{
    if k > 0 {
        lemma_dot_value_same(d1, d2, xs, ws, (k - 1) as nat, n);
        let i = k - 1;
        assert(d1[xs[i].id as int] == d1.take(n)[xs[i].id as int]);
        assert(d2[xs[i].id as int] == d2.take(n)[xs[i].id as int]);
        assert(d1[ws[i].id as int] == d1.take(n)[ws[i].id as int]);
        assert(d2[ws[i].id as int] == d2.take(n)[ws[i].id as int]);
    }
}

/// A neuron: one weight per input, a bias, and whether its output goes
/// through `tanh`.
pub struct Neuron {
    pub w: Vec<Scalar>,
    pub b: Scalar,
    pub nonlin: bool,
}

impl Neuron {
    /// All parameters are nodes of `g`.
    pub open spec fn wf<V>(&self, g: &Graph<V>) -> bool {
        &&& forall|i: int| 0 <= i < self.w@.len() ==> #[trigger] self.w@[i].valid(g)
        &&& self.b.valid(g)
    }

    /// Node `s` is the weighted sum of `xs` plus the bias.
    pub open spec fn linear_node<V: Real>(&self, g: &Graph<V>, s: int, xs: Seq<Scalar>) -> bool {
        &&& 0 <= s < g.len()
        &&& g.data@[s] == dot_value(g.data@, xs, self.w@, xs.len()).spec_plus(
            g.data@[self.b.id as int],
        )
        &&& g.op@[s] == Some(Op::Add)
        &&& match g.kids@[s] {
            Kids::Two(d, b) => b == self.b.id && dot_node(g, d as int, xs, self.w@, xs.len()),
            _ => false,
        }
    }

    /// Node `r` is this neuron's output on `xs`: it holds
    /// `tanh(x[0]*w[0] + ... + x[n-1]*w[n-1] + b)`, or the same without the
    /// `tanh` for a linear neuron, over the values in the graph.
    pub open spec fn output_node<V: Real>(&self, g: &Graph<V>, r: int, xs: Seq<Scalar>) -> bool {
        if self.nonlin {
            &&& 0 <= r < g.len()
            &&& g.op@[r] == Some(Op::Tanh)
            &&& match g.kids@[r] {
                Kids::One(s) => self.linear_node(g, s as int, xs) && g.data@[r] == g.data@[s as int].spec_tanh(),
                _ => false,
            }
        } else {
            self.linear_node(g, r, xs)
        }
    }
}

/// Facts about nodes survive adding nodes to the graph.
pub proof fn lemma_dot_node_extends<V: Real>(
    g: &Graph<V>,
    h: &Graph<V>,
    s: int,
    xs: Seq<Scalar>,
    ws: Seq<Scalar>,
    k: nat,
)
    requires
        g.wf(),
        h.wf(),
        h.extends(g),
        dot_node(g, s, xs, ws, k),
    ensures
        dot_node(h, s, xs, ws, k),
    decreases k,
{
    let n = g.len() as int;
    assert(h.op@[s] == h.op@.take(n)[s]);
    assert(h.kids@[s] == h.kids@.take(n)[s]);
    assert(h.data@[s] == h.data@.take(n)[s]);
    assert(g.data@.take(n) =~= g.data@);
    lemma_dot_ids(g, s, xs, ws, k);
    lemma_dot_value_same(h.data@, g.data@, xs, ws, k, n);
    if k > 0 {
        match g.kids@[s] {
            Kids::Two(l, m) => {
                lemma_dot_node_extends(g, h, l as int, xs, ws, (k - 1) as nat);
                assert(h.op@[m as int] == h.op@.take(n)[m as int]);
                assert(h.kids@[m as int] == h.kids@.take(n)[m as int]);
            },
            _ => {},
        }
    }
}

pub proof fn lemma_output_node_extends<V: Real>(
    nr: &Neuron,
    g: &Graph<V>,
    h: &Graph<V>,
    r: int,
    xs: Seq<Scalar>,
)
    requires
        g.wf(),
        h.wf(),
        h.extends(g),
        nr.output_node(g, r, xs),
    ensures
        nr.output_node(h, r, xs),
{
    let n = g.len() as int;
    assert(h.op@[r] == h.op@.take(n)[r]);
    assert(h.kids@[r] == h.kids@.take(n)[r]);
    let s = if nr.nonlin {
        match g.kids@[r] {
            Kids::One(s) => s as int,
            _ => r,
        }
    } else {
        r
    };
    assert(h.op@[s] == h.op@.take(n)[s]);
    assert(h.kids@[s] == h.kids@.take(n)[s]);
    assert(h.data@[s] == h.data@.take(n)[s]);
    assert(h.data@[r] == h.data@.take(n)[r]);
    assert(g.data@.take(n) =~= g.data@);
    match g.kids@[s] {
        Kids::Two(d, b) => {
            lemma_dot_node_extends(g, h, d as int, xs, nr.w@, xs.len());
            lemma_dot_ids(g, d as int, xs, nr.w@, xs.len());
            lemma_dot_value_same(h.data@, g.data@, xs, nr.w@, xs.len(), n);
            assert(g.children(s) =~= seq![d, b]);
            assert(g.children(s)[1] < s);
            assert(h.data@[b as int] == h.data@.take(n)[b as int]);
        },
        _ => {},
    }
}

/// A neuron's parameters stay in a graph that grows.
pub proof fn lemma_neuron_wf_grow<V>(nr: &Neuron, g: &Graph<V>, h: &Graph<V>)
    requires
        nr.wf(g),
        g.len() <= h.len(),
    ensures
        nr.wf(h),
{
    assert forall|i: int| 0 <= i < nr.w@.len() implies #[trigger] nr.w@[i].valid(h) by {
        assert(nr.w@[i].valid(g));
    }
}

/// One added node is an extension.
pub proof fn lemma_appends_extends<V>(g: &Graph<V>, h: &Graph<V>)
    requires
        g.wf(),
        h.wf(),
        h.appends(g),
    ensures
        h.extends(g),
{
    g.lemma_extends_refl();
    Graph::lemma_extends_push(g, g, h);
}

/// Extension is transitive.
pub proof fn lemma_extends_trans<V>(a: &Graph<V>, b: &Graph<V>, c: &Graph<V>)
    requires
        a.wf(),
        b.wf(),
        c.wf(),
        b.extends(a),
        c.extends(b),
    ensures
        c.extends(a),
{
    let n = a.len() as int;
    assert(c.data@.take(n) =~= c.data@.take(b.len() as int).take(n));
    assert(c.grad@.take(n) =~= c.grad@.take(b.len() as int).take(n));
    assert(c.op@.take(n) =~= c.op@.take(b.len() as int).take(n));
    assert(c.kids@.take(n) =~= c.kids@.take(b.len() as int).take(n));
    assert(c.label@.take(n) =~= c.label@.take(b.len() as int).take(n));
}

impl Neuron {
    /// A neuron whose weights are new leaves holding `weights`, in order,
    /// followed by a new leaf for the bias, which starts at zero.
    pub fn new<V: Real>(g: &mut Graph<V>, weights: &Vec<V>, nonlin: bool) -> (r: Neuron)
        requires
            old(g).wf(),
        ensures
            final(g).wf(),
            final(g).extends(old(g)),
            final(g).len() == old(g).len() + weights@.len() + 1,
            r.wf(final(g)),
            r.nonlin == nonlin,
            r.w@.len() == weights@.len(),
            forall|i: int|
                0 <= i < weights@.len() ==> #[trigger] r.w@[i].id == old(g).len() + i
                    && final(g).data@[r.w@[i].id as int] == weights@[i] && final(g).op@[r.w@[i].id as int]
                    == None::<Op>,
            r.b.id == old(g).len() + weights@.len(),
            final(g).data@[r.b.id as int] == V::spec_zero(),
            final(g).op@[r.b.id as int] == None::<Op>,
            forall|k: int| old(g).len() <= k < final(g).len() ==> final(g).op@[k] == None::<Op>,
            forall|k: int| old(g).len() <= k < final(g).len() ==> final(g).grad@[k] == V::spec_zero(),
    {
        let ghost g0 = *g;
        proof {
            g.lemma_extends_refl();
        }
        let mut w: Vec<Scalar> = Vec::new();
        let mut i: usize = 0;
        while i < weights.len()
            invariant
                g.wf(),
                g0.wf(),
                g.extends(&g0),
                i <= weights@.len(),
                g.len() == g0.len() + i,
                w@.len() == i,
                forall|t: int| g0.len() <= t < g.len() ==> g.grad@[t] == V::spec_zero(),
                forall|k: int|
                    0 <= k < i ==> #[trigger] w@[k].id == g0.len() + k && g.data@[w@[k].id as int]
                        == weights@[k] && g.op@[w@[k].id as int] == None::<Op>,
            decreases weights@.len() - i,
        {
            let ghost g1 = *g;
            let s = Scalar::new(g, weights[i], "");
            proof {
                Graph::lemma_extends_push(&g0, &g1, g);
                assert forall|t: int| g0.len() <= t < g.len() implies g.grad@[t] == V::spec_zero() by {
                    if t < g1.len() {
                        assert(g.grad@[t] == g.grad@.drop_last()[t]);
                    }
                }
                assert forall|k: int| 0 <= k < i implies #[trigger] w@[k].id == g0.len() + k
                    && g.data@[w@[k].id as int] == weights@[k] && g.op@[w@[k].id as int] == None::<
                    Op,
                > by {
                    assert(g.data@[w@[k].id as int] == g.data@.drop_last()[w@[k].id as int]);
                    assert(g.op@[w@[k].id as int] == g.op@.drop_last()[w@[k].id as int]);
                }
            }
            w.push(s);
            i += 1;
        }
        let ghost g1 = *g;
        let z = V::zero();
        let b = Scalar::new(g, z, "");
        proof {
            Graph::lemma_extends_push(&g0, &g1, g);
            assert forall|t: int| g0.len() <= t < g.len() implies g.grad@[t] == V::spec_zero() by {
                if t < g1.len() {
                    assert(g.grad@[t] == g.grad@.drop_last()[t]);
                }
            }
            assert forall|k: int| 0 <= k < weights@.len() implies #[trigger] w@[k].id == g0.len() + k
                && g.data@[w@[k].id as int] == weights@[k] && g.op@[w@[k].id as int] == None::<
                Op,
            > by {
                assert(g.data@[w@[k].id as int] == g.data@.drop_last()[w@[k].id as int]);
                assert(g.op@[w@[k].id as int] == g.op@.drop_last()[w@[k].id as int]);
            }
        }
        proof {
            assert forall|k: int| g0.len() <= k < g.len() implies g.op@[k] == None::<Op> by {
                if k < g.len() - 1 {
                    let j = k - g0.len();
                    assert(w@[j].id == g0.len() + j);
                }
            }
        }
        Neuron { w, b, nonlin }
    }

    /// `tanh(x[0]*w[0] + ... + x[n-1]*w[n-1] + b)` (without the `tanh` for
    /// a linear neuron), built as new nodes of `g` from a zero leaf, adding
    /// left to right.
    ///
    /// Fails, adding nothing to the graph, when `input` does not have one
    /// entry per weight.
    pub fn output<V: Real>(&self, g: &mut Graph<V>, input: &Vec<Scalar>) -> (r: Result<
        Scalar,
        NeuronError,
    >)
        requires
            old(g).wf(),
            self.wf(old(g)),
            forall|i: int| 0 <= i < input@.len() ==> #[trigger] input@[i].valid(old(g)),
        ensures
            final(g).wf(),
            final(g).extends(old(g)),
            input@.len() != self.w@.len() ==> r == Err::<Scalar, NeuronError>(
                NeuronError::InputLenErr,
            ) && *final(g) == *old(g),
            input@.len() == self.w@.len() ==> match r {
                Ok(s) => self.output_node(final(g), s.id as int, input@),
                Err(_) => false,
            },
    {
        if self.w.len() != input.len() {
            proof {
                g.lemma_extends_refl();
            }
            return Err(NeuronError::InputLenErr);
        }
        let ghost g0 = *g;
        let z = V::zero();
        let mut acc = Scalar::new(g, z, "");
        proof {
            lemma_appends_extends(&g0, g);
        }
        let mut i: usize = 0;
        while i < input.len()
            invariant
                g.wf(),
                g0.wf(),
                g.extends(&g0),
                self.wf(&g0),
                self.w@.len() == input@.len(),
                forall|k: int| 0 <= k < input@.len() ==> #[trigger] input@[k].valid(&g0),
                i <= input@.len(),
                dot_node(g, acc.id as int, input@, self.w@, i as nat),
            decreases input@.len() - i,
        {
            let ghost g1 = *g;
            assert(input@[i as int].valid(&g0));
            assert(self.w@[i as int].valid(&g0));
            let m = input[i].mul(g, self.w[i]);
            let ghost g2 = *g;
            let nacc = acc.add(g, m);
            proof {
                lemma_appends_extends(&g1, &g2);
                lemma_appends_extends(&g2, g);
                lemma_extends_trans(&g1, &g2, g);
                lemma_extends_trans(&g0, &g1, g);
                lemma_dot_node_extends(&g1, g, acc.id as int, input@, self.w@, i as nat);
                assert(g.op@[m.id as int] == g.op@.drop_last()[m.id as int]);
                assert(g.kids@[m.id as int] == g.kids@.drop_last()[m.id as int]);
            }
            acc = nacc;
            i += 1;
        }
        let ghost g1 = *g;
        let lin = acc.add(g, self.b);
        proof {
            lemma_appends_extends(&g1, g);
            lemma_extends_trans(&g0, &g1, g);
            lemma_dot_node_extends(&g1, g, acc.id as int, input@, self.w@, input@.len());
        }
        if self.nonlin {
            let ghost g2 = *g;
            let out = lin.tanh(g);
            proof {
                lemma_appends_extends(&g2, g);
                lemma_extends_trans(&g0, &g2, g);
                lemma_dot_node_extends(&g2, g, acc.id as int, input@, self.w@, input@.len());
                assert(g.op@[lin.id as int] == g.op@.drop_last()[lin.id as int]);
                assert(g.kids@[lin.id as int] == g.kids@.drop_last()[lin.id as int]);
            }
            Ok(out)
        } else {
            Ok(lin)
        }
    }

    /// The weights, then the bias.
    pub fn parameters(&self) -> (r: Vec<Scalar>)
        ensures
            r@ == self.w@.push(self.b),
    {
        let mut r: Vec<Scalar> = Vec::new();
        let mut i: usize = 0;
        while i < self.w.len()
            invariant
                i <= self.w@.len(),
                r@ == self.w@.take(i as int),
            decreases self.w@.len() - i,
        {
            r.push(self.w[i]);
            i += 1;
            assert(r@ =~= self.w@.take(i as int));
        }
        r.push(self.b);
        assert(r@ =~= self.w@.push(self.b));
        r
    }
}

/// The parameters of `ns`, neuron after neuron, each neuron's weights then
/// its bias.
pub open spec fn neuron_params(ns: Seq<Neuron>) -> Seq<Scalar>
    decreases ns.len(),
{
    if ns.len() == 0 {
        seq![]
    } else {
        neuron_params(ns.drop_last()) + ns.last().w@.push(ns.last().b)
    }
}

/// `n` neurons of `nin` weights each have `n * (nin + 1)` parameters.
pub proof fn lemma_neuron_params_len(ns: Seq<Neuron>, nin: nat)
    requires
        forall|k: int| 0 <= k < ns.len() ==> #[trigger] ns[k].w@.len() == nin,
    ensures
        neuron_params(ns).len() == ns.len() * (nin + 1),
    decreases ns.len(),
{
    if ns.len() > 0 {
        let pre = ns.drop_last();
        assert forall|k: int| 0 <= k < pre.len() implies #[trigger] pre[k].w@.len() == nin by {
            assert(pre[k] == ns[k]);
        }
        lemma_neuron_params_len(pre, nin);
        assert(ns.last().w@.len() == nin);
        assert(ns.len() * (nin + 1) == (ns.len() - 1) * (nin + 1) + (nin + 1)) by (nonlinear_arith);
    }
}

/// A copy of `v[from..from + n]`.
fn copy_range<V: Copy>(v: &Vec<V>, from: usize, n: usize) -> (r: Vec<V>)
    requires
        from + n <= v@.len(),
    ensures
        r@ == v@.subrange(from as int, from + n),
{
    let len = v.len();
    let mut r: Vec<V> = Vec::new();
    let mut i: usize = 0;
    while i < n
        invariant
            from + n <= len,
            len == v@.len(),
            i <= n,
            r@ == v@.subrange(from as int, from + i),
        decreases n - i,
    {
        r.push(v[from + i]);
        i += 1;
        assert(r@ =~= v@.subrange(from as int, from + i));
    }
    r
}

/// A row of neurons that all read the same input.
pub struct Layer {
    pub neurons: Vec<Neuron>,
}

impl Layer {
    /// Every neuron is well formed and has as many weights as the first.
    pub open spec fn wf<V>(&self, g: &Graph<V>) -> bool {
        forall|k: int|
            0 <= k < self.neurons@.len() ==> #[trigger] self.neurons@[k].wf(g)
                && self.neurons@[k].w@.len() == self.neurons@[0].w@.len()
    }

    /// Every neuron has `nin` weights.
    pub open spec fn fan_in(&self, nin: nat) -> bool {
        forall|k: int| 0 <= k < self.neurons@.len() ==> #[trigger] self.neurons@[k].w@.len() == nin
    }

    /// `nout` neurons of `nin` inputs each; neuron `k` takes its weights from
    /// `weights[k * nin .. (k + 1) * nin]`, and every bias starts at zero.
    /// All parameters are new leaves, with gradient zero.
    pub fn new<V: Real>(
        g: &mut Graph<V>,
        nin: usize,
        nout: usize,
        nonlin: bool,
        weights: &Vec<V>,
    ) -> (r: Layer)
        requires
            old(g).wf(),
            weights@.len() == nin * nout,
        ensures
            final(g).wf(),
            final(g).extends(old(g)),
            final(g).len() == old(g).len() + nout * (nin + 1),
            r.wf(final(g)),
            r.fan_in(nin as nat),
            r.neurons@.len() == nout,
            forall|k: int| 0 <= k < nout ==> #[trigger] r.neurons@[k].nonlin == nonlin,
            forall|k: int| 0 <= k < nout ==> final(g).data@[#[trigger] r.neurons@[k].b.id as int] == V::spec_zero(),
            forall|k: int| old(g).len() <= k < final(g).len() ==> final(g).op@[k] == None::<Op>,
            forall|k: int| old(g).len() <= k < final(g).len() ==> final(g).grad@[k] == V::spec_zero(),
            forall|i: int|
                0 <= i < neuron_params(r.neurons@).len() ==> #[trigger] neuron_params(r.neurons@)[i].id
                    == old(g).len() + i,
            forall|k: int, i: int|
                0 <= k < nout && 0 <= i < nin ==> final(g).data@[#[trigger] r.neurons@[k].w@[i].id as int]
                    == weights@[k * nin + i],
    {
        let ghost g0 = *g;
        proof {
            g.lemma_extends_refl();
        }
        let wl = weights.len();
        let mut neurons: Vec<Neuron> = Vec::new();
        let mut k: usize = 0;
        while k < nout
            invariant
                wl == weights@.len(),
                g.wf(),
                g0.wf(),
                g.extends(&g0),
                weights@.len() == nin * nout,
                k <= nout,
                g.len() == g0.len() + k * (nin + 1),
                neurons@.len() == k,
                forall|j: int| 0 <= j < k ==> #[trigger] neurons@[j].wf(g),
                forall|j: int| 0 <= j < k ==> #[trigger] neurons@[j].w@.len() == nin,
                forall|j: int| 0 <= j < k ==> #[trigger] neurons@[j].nonlin == nonlin,
                forall|j: int| 0 <= j < k ==> g.data@[#[trigger] neurons@[j].b.id as int] == V::spec_zero(),
                forall|j: int, i: int|
                    0 <= j < k && 0 <= i < nin ==> g.data@[#[trigger] neurons@[j].w@[i].id as int]
                        == weights@[j * nin + i],
                forall|t: int| g0.len() <= t < g.len() ==> g.op@[t] == None::<Op>,
                forall|t: int| g0.len() <= t < g.len() ==> g.grad@[t] == V::spec_zero(),
                neuron_params(neurons@).len() == g.len() - g0.len(),
                forall|i: int|
                    0 <= i < neuron_params(neurons@).len() ==> #[trigger] neuron_params(neurons@)[i].id
                        == g0.len() + i,
            decreases nout - k,
        {
            assert((k + 1) * nin <= nin * nout) by (nonlinear_arith)
                requires
                    k < nout,
            ;
            assert(k * nin + nin == (k + 1) * nin) by (nonlinear_arith);
            let ws = copy_range(weights, k * nin, nin);
            let ghost g1 = *g;
            let ghost old_neurons = neurons@;
            let nr = Neuron::new(g, &ws, nonlin);
            proof {
                lemma_extends_trans(&g0, &g1, g);
                assert(g.len() == g0.len() + (k + 1) * (nin + 1)) by (nonlinear_arith)
                    requires
                        g.len() == g1.len() + nin + 1,
                        g1.len() == g0.len() + k * (nin + 1),
                ;
                let n1 = g1.len() as int;
                assert forall|j: int| 0 <= j < k implies #[trigger] neurons@[j].wf(g) by {
                    assert(neurons@[j].wf(&g1));
                    lemma_neuron_wf_grow(&neurons@[j], &g1, g);
                }
                assert forall|j: int| 0 <= j < k implies g.data@[#[trigger] neurons@[j].b.id as int]
                    == V::spec_zero() by {
                    assert(neurons@[j].wf(&g1));
                    assert(g.data@[neurons@[j].b.id as int] == g.data@.take(n1)[neurons@[j].b.id as int]);
                }
                assert forall|j: int, i: int|
                    0 <= j < k && 0 <= i < nin implies g.data@[#[trigger] neurons@[j].w@[i].id as int]
                        == weights@[j * nin + i] by {
                    assert(neurons@[j].wf(&g1));
                    assert(neurons@[j].w@[i].valid(&g1));
                    assert(g.data@[neurons@[j].w@[i].id as int] == g.data@.take(n1)[neurons@[j].w@[i].id as int]);
                }
            }
            let ghost np0 = neuron_params(neurons@);
            neurons.push(nr);
            proof {
                assert(forall|j: int| 0 <= j < k ==> neurons@[j] == old_neurons[j]);
                assert(neurons@[k as int] == nr);
                assert(ws@.len() == nin);
                assert forall|j: int| 0 <= j < k + 1 implies #[trigger] neurons@[j].w@.len() == nin by {
                    if j < k {
                        assert(old_neurons[j].w@.len() == nin);
                    }
                }
                assert forall|j: int| 0 <= j < k + 1 implies g.data@[#[trigger] neurons@[j].b.id as int]
                    == V::spec_zero() by {
                    if j < k {
                        assert(neurons@[j] == old_neurons[j]);
                    }
                }
                assert(neurons@.drop_last() =~= neurons@.take(k as int));
                assert(neurons@.take(k as int) =~= old_neurons);
                assert(neuron_params(neurons@) == np0 + nr.w@.push(nr.b));
                assert forall|t: int| g0.len() <= t < g.len() implies g.op@[t] == None::<Op> by {
                    if t < g1.len() {
                        assert(g.op@[t] == g.op@.take(g1.len() as int)[t]);
                    }
                }
                assert forall|t: int| g0.len() <= t < g.len() implies g.grad@[t] == V::spec_zero() by {
                    if t < g1.len() {
                        assert(g.grad@[t] == g.grad@.take(g1.len() as int)[t]);
                    }
                }
                assert forall|i: int|
                    0 <= i < neuron_params(neurons@).len() implies #[trigger] neuron_params(neurons@)[i].id
                        == g0.len() + i by {
                    if i >= np0.len() {
                        let j = i - np0.len();
                        if j < nin {
                            assert(nr.w@[j].id == g1.len() + j);
                        }
                    }
                }
                assert forall|j: int, i: int|
                    0 <= j < k + 1 && 0 <= i < nin implies g.data@[#[trigger] neurons@[j].w@[i].id as int]
                        == weights@[j * nin + i] by {
                    if j == k {
                        assert(nr.w@[i].id == g1.len() + i);
                        assert(g.data@[nr.w@[i].id as int] == ws@[i]);
                        assert(ws@[i] == weights@[k * nin + i]);
                        assert(neurons@[j].w@[i] == nr.w@[i]);
                    } else {
                        assert(neurons@[j] == old_neurons[j]);
                        assert(g.data@[old_neurons[j].w@[i].id as int] == weights@[j * nin + i]);
                    }
                }
            }
            k += 1;
        }
        proof {
            assert forall|j: int| 0 <= j < neurons@.len() implies #[trigger] neurons@[j].wf(g)
                && neurons@[j].w@.len() == neurons@[0].w@.len() by {
                assert(neurons@[j].wf(g));
                assert(neurons@[0].wf(g));
            }
            assert forall|j: int| 0 <= j < neurons@.len() implies #[trigger] neurons@[j].w@.len()
                == nin by {
                assert(neurons@[j].wf(g));
            }
        }
        Layer { neurons }
    }

    /// Every neuron's output on `input`, in order.
    ///
    /// Fails, adding nothing to the graph, when there is a neuron and
    /// `input` does not have one entry per weight.
    pub fn output<V: Real>(&self, g: &mut Graph<V>, input: &Vec<Scalar>) -> (r: Result<
        Vec<Scalar>,
        NeuronError,
    >)
        requires
            old(g).wf(),
            self.wf(old(g)),
            forall|i: int| 0 <= i < input@.len() ==> #[trigger] input@[i].valid(old(g)),
        ensures
            final(g).wf(),
            final(g).extends(old(g)),
            (self.neurons@.len() > 0 && input@.len() != self.neurons@[0].w@.len()) ==> r == Err::<
                Vec<Scalar>,
                NeuronError,
            >(NeuronError::InputLenErr) && *final(g) == *old(g),
            !(self.neurons@.len() > 0 && input@.len() != self.neurons@[0].w@.len()) ==> match r {
                Ok(v) => v@.len() == self.neurons@.len() && forall|k: int|
                    0 <= k < v@.len() ==> #[trigger] self.neurons@[k].output_node(
                        final(g),
                        v@[k].id as int,
                        input@,
                    ),
                Err(_) => false,
            },
    {
        let ghost g0 = *g;
        proof {
            g.lemma_extends_refl();
        }
        let mut out: Vec<Scalar> = Vec::new();
        let mut k: usize = 0;
        while k < self.neurons.len()
            invariant
                g.wf(),
                g0.wf(),
                g.extends(&g0),
                self.wf(&g0),
                forall|i: int| 0 <= i < input@.len() ==> #[trigger] input@[i].valid(&g0),
                k <= self.neurons@.len(),
                k > 0 ==> input@.len() == self.neurons@[0].w@.len(),
                k == 0 ==> *g == g0,
                g0 == *old(g),
                out@.len() == k,
                forall|j: int|
                    0 <= j < k ==> #[trigger] self.neurons@[j].output_node(g, out@[j].id as int, input@),
            decreases self.neurons@.len() - k,
        {
            let ghost g1 = *g;
            assert(self.neurons@[k as int].wf(&g0));
            assert(self.neurons@[0].wf(&g0));
            assert(self.neurons@[k as int].w@.len() == self.neurons@[0].w@.len());
            proof {
                lemma_neuron_wf_grow(&self.neurons@[k as int], &g0, g);
                assert forall|i: int| 0 <= i < input@.len() implies #[trigger] input@[i].valid(g) by {
                    assert(input@[i].valid(&g0));
                }
            }
            let res = self.neurons[k].output(g, input);
            match res {
                Ok(o) => {
                    proof {
                        lemma_extends_trans(&g0, &g1, g);
                        assert forall|j: int| 0 <= j < k implies #[trigger] self.neurons@[j].output_node(
                            g,
                            out@[j].id as int,
                            input@,
                        ) by {
                            lemma_output_node_extends(&self.neurons@[j], &g1, g, out@[j].id as int, input@);
                        }
                    }
                    out.push(o);
                },
                Err(e) => {
                    proof {
                        assert(input@.len() != self.neurons@[k as int].w@.len());
                        assert(k == 0);
                        assert(*g == g0);
                        g.lemma_extends_refl();
                    }
                    return Err(e);
                },
            }
            k += 1;
        }
        Ok(out)
    }

    /// The parameters of every neuron, neuron after neuron.
    pub fn parameters(&self) -> (r: Vec<Scalar>)
        ensures
            r@ == neuron_params(self.neurons@),
    {
        let mut r: Vec<Scalar> = Vec::new();
        let mut k: usize = 0;
        while k < self.neurons.len()
            invariant
                k <= self.neurons@.len(),
                r@ == neuron_params(self.neurons@.take(k as int)),
            decreases self.neurons@.len() - k,
        {
            let mut p = self.neurons[k].parameters();
            r.append(&mut p);
            k += 1;
            assert(self.neurons@.take(k as int).drop_last() =~= self.neurons@.take(k - 1));
        }
        assert(self.neurons@.take(k as int) =~= self.neurons@);
        r
    }
}

/// How many weights a network of input width `nin` and layer widths
/// `nouts` has (biases not counted).
pub open spec fn weight_count(nin: nat, nouts: Seq<usize>) -> nat
    decreases nouts.len(),
{
    if nouts.len() == 0 {
        0
    } else {
        nin * (nouts[0] as nat) + weight_count(nouts[0] as nat, nouts.drop_first())
    }
}

/// How many parameters (weights and biases) a network of input width `nin`
/// and layer widths `nouts` has.
pub open spec fn param_count(nin: nat, nouts: Seq<usize>) -> nat
    decreases nouts.len(),
{
    if nouts.len() == 0 {
        0
    } else {
        (nin + 1) * (nouts[0] as nat) + param_count(nouts[0] as nat, nouts.drop_first())
    }
}

/// The input width of layer `l` in a network of input width `nin` and layer
/// widths `nouts`.
pub open spec fn width_in(nin: nat, nouts: Seq<usize>, l: int) -> nat {
    if l == 0 {
        nin
    } else {
        nouts[l - 1] as nat
    }
}

/// Where layer `l`'s weights start in the network's weight list.
pub open spec fn weight_offset(nin: nat, nouts: Seq<usize>, l: nat) -> nat
    decreases l,
{
    if l == 0 {
        0
    } else {
        weight_offset(nin, nouts, (l - 1) as nat) + width_in(nin, nouts, l - 1) * (nouts[l - 1] as nat)
    }
}

/// The parameters of `ls`, layer after layer.
pub open spec fn layer_params(ls: Seq<Layer>) -> Seq<Scalar>
    decreases ls.len(),
{
    if ls.len() == 0 {
        seq![]
    } else {
        layer_params(ls.drop_last()) + neuron_params(ls.last().neurons@)
    }
}

/// A stack of layers, each feeding the next.
pub struct MLP {
    pub layers: Vec<Layer>,
}

impl MLP {
    /// Every layer is well formed and each layer has one weight per neuron
    /// of the layer before it.
    pub open spec fn wf<V>(&self, g: &Graph<V>) -> bool {
        &&& forall|i: int| 0 <= i < self.layers@.len() ==> #[trigger] self.layers@[i].wf(g)
        &&& forall|i: int|
            0 < i < self.layers@.len() ==> #[trigger] self.layers@[i].fan_in(
                self.layers@[i - 1].neurons@.len(),
            )
    }

    /// The network's parameters, layer after layer.
    pub open spec fn params(&self) -> Seq<Scalar> {
        layer_params(self.layers@)
    }

    /// Whether a forward pass on an input of length `n` is refused: the
    /// first layer has neurons and they expect another length.
    pub open spec fn refuses(&self, n: nat) -> bool {
        &&& self.layers@.len() > 0
        &&& self.layers@[0].neurons@.len() > 0
        &&& n != self.layers@[0].neurons@[0].w@.len()
    }

    /// `xs[i + 1]` is what layer `i` makes of `xs[i]`.
    pub open spec fn threads<V: Real>(&self, g: &Graph<V>, xs: Seq<Seq<Scalar>>) -> bool {
        &&& xs.len() == self.layers@.len() + 1
        &&& forall|i: int|
            0 <= i < self.layers@.len() ==> (#[trigger] xs[i + 1]).len()
                == self.layers@[i].neurons@.len()
        &&& forall|i: int, k: int|
            0 <= i < self.layers@.len() && 0 <= k < xs[i + 1].len()
                ==> #[trigger] self.layers@[i].neurons@[k].output_node(g, xs[i + 1][k].id as int, xs[i])
    }

    /// A network with input width `nin` and one layer per entry of `nouts`,
    /// of that many neurons. Every layer but the last goes through `tanh`.
    /// Weights are taken from `weights` in order: layer by layer, neuron by
    /// neuron; every bias starts at zero. All parameters are new leaves, with
    /// gradient zero, numbered in the order `parameters` lists them.
    pub fn new<V: Real>(g: &mut Graph<V>, nin: usize, nouts: &Vec<usize>, weights: &Vec<V>) -> (r:
        MLP)
        requires
            old(g).wf(),
            weights@.len() == weight_count(nin as nat, nouts@),
        ensures
            final(g).wf(),
            final(g).extends(old(g)),
            final(g).len() == old(g).len() + param_count(nin as nat, nouts@),
            r.wf(final(g)),
            r.params().len() == param_count(nin as nat, nouts@),
            forall|k: int| old(g).len() <= k < final(g).len() ==> final(g).op@[k] == None::<Op>,
            forall|k: int| old(g).len() <= k < final(g).len() ==> final(g).grad@[k] == V::spec_zero(),
            forall|i: int| 0 <= i < r.params().len() ==> #[trigger] r.params()[i].id == old(g).len() + i,
            r.layers@.len() == nouts@.len(),
            forall|i: int| 0 <= i < nouts@.len() ==> #[trigger] r.layers@[i].neurons@.len() == nouts@[i],
            nouts@.len() > 0 ==> r.layers@[0].fan_in(nin as nat),
            forall|l: int, k: int, i: int|
                0 <= l < nouts@.len() && 0 <= k < nouts@[l] && 0 <= i < width_in(nin as nat, nouts@, l)
                    ==> final(g).data@[#[trigger] r.layers@[l].neurons@[k].w@[i].id as int]
                    == weights@[weight_offset(nin as nat, nouts@, l as nat) + k * width_in(nin as nat, nouts@, l) + i],
            forall|l: int, k: int|
                0 <= l < nouts@.len() && 0 <= k < nouts@[l] ==> final(g).data@[#[trigger] r.layers@[l].neurons@[k].b.id as int]
                    == V::spec_zero(),
            forall|i: int, k: int|
                0 <= i < nouts@.len() && 0 <= k < nouts@[i] ==> #[trigger] r.layers@[i].neurons@[k].nonlin
                    == (i != nouts@.len() - 1),
    {
        let ghost g0 = *g;
        proof {
            g.lemma_extends_refl();
        }
        let wl = weights.len();
        let mut layers: Vec<Layer> = Vec::new();
        let mut cur: usize = nin;
        let mut off: usize = 0;
        let mut i: usize = 0;
        proof {
            assert(nouts@.skip(0) =~= nouts@);
        }
        while i < nouts.len()
            invariant
                g.wf(),
                g0.wf(),
                g.extends(&g0),
                wl == weights@.len(),
                i <= nouts@.len(),
                layers@.len() == i,
                cur == if i == 0 {
                    nin
                } else {
                    nouts@[i - 1]
                },
                off + weight_count(cur as nat, nouts@.skip(i as int)) == wl,
                off == weight_offset(nin as nat, nouts@, i as nat),
                forall|l: int, k: int, ii: int|
                    0 <= l < i && 0 <= k < nouts@[l] && 0 <= ii < width_in(nin as nat, nouts@, l)
                        ==> g.data@[#[trigger] layers@[l].neurons@[k].w@[ii].id as int]
                        == weights@[weight_offset(nin as nat, nouts@, l as nat) + k * width_in(nin as nat, nouts@, l) + ii],
                forall|l: int, k: int|
                    0 <= l < i && 0 <= k < nouts@[l] ==> g.data@[#[trigger] layers@[l].neurons@[k].b.id as int]
                        == V::spec_zero(),
                layer_params(layers@).len() + param_count(cur as nat, nouts@.skip(i as int))
                    == param_count(nin as nat, nouts@),
                g.len() == g0.len() + layer_params(layers@).len(),
                forall|t: int| g0.len() <= t < g.len() ==> g.op@[t] == None::<Op>,
                forall|t: int| g0.len() <= t < g.len() ==> g.grad@[t] == V::spec_zero(),
                forall|t: int|
                    0 <= t < layer_params(layers@).len() ==> #[trigger] layer_params(layers@)[t].id
                        == g0.len() + t,
                forall|j: int| 0 <= j < i ==> #[trigger] layers@[j].wf(g),
                forall|j: int| 0 <= j < i ==> #[trigger] layers@[j].neurons@.len() == nouts@[j],
                i > 0 ==> layers@[0].fan_in(nin as nat),
                forall|j: int|
                    #![trigger layers@[j]]
                    0 < j < i ==> layers@[j].fan_in(nouts@[j - 1] as nat),
                forall|j: int, k: int|
                    0 <= j < i && 0 <= k < nouts@[j] ==> #[trigger] layers@[j].neurons@[k].nonlin
                        == (j != nouts@.len() - 1),
            decreases nouts@.len() - i,
        {
            let no = nouts[i];
            let ghost rest = nouts@.skip(i as int);
            assert(rest[0] == no);
            assert(rest.drop_first() =~= nouts@.skip(i + 1));
            let wc = cur * no;
            let ws = copy_range(weights, off, wc);
            let ghost g1 = *g;
            let ghost old_layers = layers@;
            let layer = Layer::new(g, cur, no, i != nouts.len() - 1, &ws);
            proof {
                lemma_extends_trans(&g0, &g1, g);
                lemma_neuron_params_len(layer.neurons@, cur as nat);
                assert(no * (cur + 1) == (cur + 1) * no) by (nonlinear_arith);
                assert(layers@.push(layer).drop_last() =~= layers@);
                assert forall|j: int| 0 <= j < i implies #[trigger] layers@[j].wf(g) by {
                    assert(layers@[j].wf(&g1));
                    assert forall|k: int| 0 <= k < layers@[j].neurons@.len() implies #[trigger] layers@[j].neurons@[k].wf(g)
                        && layers@[j].neurons@[k].w@.len() == layers@[j].neurons@[0].w@.len() by {
                        assert(layers@[j].neurons@[k].wf(&g1));
                        lemma_neuron_wf_grow(&layers@[j].neurons@[k], &g1, g);
                    }
                }
            }
            let ghost lp0 = layer_params(layers@);
            proof {
                let n1 = g1.len() as int;
                assert forall|l: int, k: int, ii: int|
                    0 <= l < i && 0 <= k < nouts@[l] && 0 <= ii < width_in(nin as nat, nouts@, l)
                        implies g.data@[#[trigger] layers@[l].neurons@[k].w@[ii].id as int]
                        == weights@[weight_offset(nin as nat, nouts@, l as nat) + k * width_in(nin as nat, nouts@, l) + ii] by {
                    assert(layers@[l].wf(&g1));
                    assert(layers@[l].neurons@[k].wf(&g1));
                    if l == 0 {
                        assert(layers@[0].fan_in(nin as nat));
                    } else {
                        assert(layers@[l].fan_in(nouts@[l - 1] as nat));
                    }
                    assert(layers@[l].neurons@[k].w@[ii].valid(&g1));
                    assert(g.data@[layers@[l].neurons@[k].w@[ii].id as int] == g.data@.take(n1)[layers@[l].neurons@[k].w@[ii].id as int]);
                }
                assert forall|l: int, k: int|
                    0 <= l < i && 0 <= k < nouts@[l] implies g.data@[#[trigger] layers@[l].neurons@[k].b.id as int]
                        == V::spec_zero() by {
                    assert(layers@[l].wf(&g1));
                    assert(layers@[l].neurons@[k].wf(&g1));
                    assert(g.data@[layers@[l].neurons@[k].b.id as int] == g.data@.take(n1)[layers@[l].neurons@[k].b.id as int]);
                }
                assert forall|k: int, ii: int| 0 <= k < no && 0 <= ii < cur implies g.data@[#[trigger] layer.neurons@[k].w@[ii].id as int]
                    == weights@[off + k * cur + ii] by {
                    assert(k * cur + ii < cur * no) by (nonlinear_arith)
                        requires
                            0 <= k < no,
                            0 <= ii < cur,
                    ;
                    assert(ws@[k * cur + ii] == weights@[off + (k * cur + ii)]);
                }
            }
            layers.push(layer);
            proof {
                assert(width_in(nin as nat, nouts@, i as int) == cur);
                assert(weight_offset(nin as nat, nouts@, (i + 1) as nat) == off + cur * no);
                assert(forall|l: int| 0 <= l < i ==> layers@[l] == old_layers[l]);
                assert forall|l: int, k: int, ii: int|
                    0 <= l < i + 1 && 0 <= k < nouts@[l] && 0 <= ii < width_in(nin as nat, nouts@, l)
                        implies g.data@[#[trigger] layers@[l].neurons@[k].w@[ii].id as int]
                        == weights@[weight_offset(nin as nat, nouts@, l as nat) + k * width_in(nin as nat, nouts@, l) + ii] by {
                    if l == i {
                        assert(layers@[l] == layer);
                        assert(g.data@[layer.neurons@[k].w@[ii].id as int] == weights@[off + k * cur + ii]);
                    } else {
                        assert(layers@[l] == old_layers[l]);
                        assert(g.data@[old_layers[l].neurons@[k].w@[ii].id as int]
                            == weights@[weight_offset(nin as nat, nouts@, l as nat) + k * width_in(nin as nat, nouts@, l) + ii]);
                    }
                }
                assert forall|l: int, k: int|
                    0 <= l < i + 1 && 0 <= k < nouts@[l] implies g.data@[#[trigger] layers@[l].neurons@[k].b.id as int]
                        == V::spec_zero() by {
                    if l == i {
                        assert(layers@[l] == layer);
                    } else {
                        assert(layers@[l] == old_layers[l]);
                        assert(g.data@[old_layers[l].neurons@[k].b.id as int] == V::spec_zero());
                    }
                }
                assert(layers@[i as int] == layer);
                assert(layers@.drop_last() =~= old_layers);
                assert(layer_params(layers@) == lp0 + neuron_params(layer.neurons@));
                assert forall|t: int| g0.len() <= t < g.len() implies g.op@[t] == None::<Op> by {
                    if t < g1.len() {
                        assert(g.op@[t] == g.op@.take(g1.len() as int)[t]);
                    }
                }
                assert forall|t: int| g0.len() <= t < g.len() implies g.grad@[t] == V::spec_zero() by {
                    if t < g1.len() {
                        assert(g.grad@[t] == g.grad@.take(g1.len() as int)[t]);
                    }
                }
                assert forall|t: int|
                    0 <= t < layer_params(layers@).len() implies #[trigger] layer_params(layers@)[t].id
                        == g0.len() + t by {
                    if t >= lp0.len() {
                        let j = t - lp0.len();
                        assert(neuron_params(layer.neurons@)[j].id == g1.len() + j);
                    }
                }
            }
            off = off + wc;
            cur = no;
            i += 1;
        }
        proof {
            assert(nouts@.skip(i as int) =~= Seq::<usize>::empty());
            assert forall|j: int| 0 < j < layers@.len() implies #[trigger] layers@[j].fan_in(
                layers@[j - 1].neurons@.len(),
            ) by {
                assert(layers@[j].fan_in(nouts@[j - 1] as nat));
                assert(layers@[j - 1].neurons@.len() == nouts@[j - 1]);
            }
            if nouts@.len() > 0 {
                assert(layers@[0].fan_in(nin as nat));
            }
        }
        MLP { layers }
    }

    /// Passes `input` through the layers in order, each layer's outputs
    /// being the next layer's input, and returns the last layer's outputs
    /// (`input` itself when there are no layers).
    ///
    /// Fails, adding nothing to the graph, exactly when the first layer
    /// refuses the input's length; the later layers' widths agree by
    /// construction.
    pub fn output<V: Real>(&self, g: &mut Graph<V>, input: &Vec<Scalar>) -> (r: Result<
        Vec<Scalar>,
        NeuronError,
    >)
        requires
            old(g).wf(),
            self.wf(old(g)),
            forall|i: int| 0 <= i < input@.len() ==> #[trigger] input@[i].valid(old(g)),
        ensures
            final(g).wf(),
            final(g).extends(old(g)),
            self.refuses(input@.len()) ==> r == Err::<Vec<Scalar>, NeuronError>(
                NeuronError::InputLenErr,
            ) && *final(g) == *old(g),
            !self.refuses(input@.len()) ==> match r {
                Ok(v) => exists|xs: Seq<Seq<Scalar>>|
                    #![trigger self.threads(final(g), xs)]
                    self.threads(final(g), xs) && xs[0] == input@ && xs.last() == v@,
                Err(_) => false,
            },
    {
        let ghost g0 = *g;
        proof {
            g.lemma_extends_refl();
        }
        let mut cur: Vec<Scalar> = copy_range(input, 0, input.len());
        proof {
            assert(cur@ =~= input@);
        }
        let ghost mut xs: Seq<Seq<Scalar>> = seq![input@];
        let mut i: usize = 0;
        while i < self.layers.len()
            invariant
                g.wf(),
                g0.wf(),
                g0 == *old(g),
                g.extends(&g0),
                self.wf(&g0),
                i <= self.layers@.len(),
                i == 0 ==> *g == g0 && cur@ == input@,
                i > 0 ==> cur@.len() == self.layers@[i - 1].neurons@.len(),
                forall|k: int| 0 <= k < cur@.len() ==> #[trigger] cur@[k].valid(g),
                xs.len() == i + 1,
                xs[0] == input@,
                xs[i as int] == cur@,
                forall|j: int| 0 <= j < i ==> (#[trigger] xs[j + 1]).len() == self.layers@[j].neurons@.len(),
                forall|j: int, k: int|
                    0 <= j < i && 0 <= k < xs[j + 1].len()
                        ==> #[trigger] self.layers@[j].neurons@[k].output_node(g, xs[j + 1][k].id as int, xs[j]),
                i > 0 ==> !self.refuses(input@.len()),
            decreases self.layers@.len() - i,
        {
            let ghost g1 = *g;
            let ghost xs1 = xs;
            proof {
                let l = self.layers@[i as int];
                assert(l.wf(&g0));
                assert forall|k: int| 0 <= k < l.neurons@.len() implies #[trigger] l.neurons@[k].wf(g)
                    && l.neurons@[k].w@.len() == l.neurons@[0].w@.len() by {
                    assert(l.neurons@[k].wf(&g0));
                    lemma_neuron_wf_grow(&l.neurons@[k], &g0, g);
                }
                if i > 0 && l.neurons@.len() > 0 {
                    assert(l.fan_in(self.layers@[i - 1].neurons@.len()));
                    assert(l.neurons@[0].w@.len() == cur@.len());
                }
            }
            let res = self.layers[i].output(g, &cur);
            match res {
                Ok(v) => {
                    proof {
                        lemma_extends_trans(&g0, &g1, g);
                        xs = xs.push(v@);
                        assert(xs[i + 1] == v@);
                        assert forall|j: int| 0 <= j < i + 1 implies (#[trigger] xs[j + 1]).len()
                            == self.layers@[j].neurons@.len() by {
                            if j < i {
                                assert(xs[j + 1] == xs1[j + 1]);
                            }
                        }
                        assert forall|j: int, k: int|
                            0 <= j < i + 1 && 0 <= k < xs[j + 1].len()
                                implies #[trigger] self.layers@[j].neurons@[k].output_node(
                                g,
                                xs[j + 1][k].id as int,
                                xs[j],
                            ) by {
                            assert(xs[j] == xs1[j] || j == i);
                            if j < i {
                                assert(xs[j + 1] == xs1[j + 1]);
                                assert(xs[j] == xs1[j]);
                                lemma_output_node_extends(
                                    &self.layers@[j].neurons@[k],
                                    &g1,
                                    g,
                                    xs1[j + 1][k].id as int,
                                    xs1[j],
                                );
                            } else {
                                assert(xs[j] == cur@);
                                assert(self.layers@[j].neurons@[k].output_node(g, v@[k].id as int, cur@));
                            }
                        }
                        assert forall|k: int| 0 <= k < v@.len() implies #[trigger] v@[k].valid(g) by {
                            assert(self.layers@[i as int].neurons@[k].output_node(g, v@[k].id as int, cur@));
                        }
                        if i == 0 {
                            assert(!self.refuses(input@.len()));
                        }
                    }
                    cur = v;
                },
                Err(e) => {
                    proof {
                        assert(i == 0);
                        assert(*g == g0);
                        g.lemma_extends_refl();
                    }
                    return Err(e);
                },
            }
            i += 1;
        }
        proof {
            assert(self.threads(g, xs));
        }
        Ok(cur)
    }

    /// Every weight and bias of the network: layer after layer, neuron
    /// after neuron, each neuron's weights then its bias.
    pub fn parameters(&self) -> (r: Vec<Scalar>)
        ensures
            r@ == self.params(),
    {
        let mut r: Vec<Scalar> = Vec::new();
        let mut i: usize = 0;
        while i < self.layers.len()
            invariant
                i <= self.layers@.len(),
                r@ == layer_params(self.layers@.take(i as int)),
            decreases self.layers@.len() - i,
        {
            let mut p = self.layers[i].parameters();
            r.append(&mut p);
            i += 1;
            assert(self.layers@.take(i as int).drop_last() =~= self.layers@.take(i - 1));
        }
        assert(self.layers@.take(i as int) =~= self.layers@);
        r
    }
}

} // verus!
