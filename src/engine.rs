use vstd::prelude::*;

verus! {

broadcast use vstd::string::to_string_from_display_ensures_for_str;

/// The arithmetic that node values support.
///
/// Values are opaque to the graph: it only moves them around and combines
/// them through these operations, so any scalar type (`f32`, `f64`, ...)
/// can be plugged in by implementing this trait. Each operation is a
/// function of its arguments, named by the matching `spec_` function.
pub trait Real: Copy + Sized {
    spec fn spec_zero() -> Self;

    spec fn spec_one() -> Self;

    spec fn spec_from_i32(n: i32) -> Self;

    spec fn spec_plus(self, o: Self) -> Self;

    spec fn spec_minus(self, o: Self) -> Self;

    spec fn spec_times(self, o: Self) -> Self;

    spec fn spec_negate(self) -> Self;

    spec fn spec_powi(self, n: i32) -> Self;

    spec fn spec_tanh(self) -> Self;

    fn zero() -> (r: Self)
        ensures
            r == Self::spec_zero(),
    ;

    fn one() -> (r: Self)
        ensures
            r == Self::spec_one(),
    ;

    fn from_i32(n: i32) -> (r: Self)
        ensures
            r == Self::spec_from_i32(n),
    ;

    fn plus(self, o: Self) -> (r: Self)
        ensures
            r == self.spec_plus(o),
    ;

    fn minus(self, o: Self) -> (r: Self)
        ensures
            r == self.spec_minus(o),
    ;

    fn times(self, o: Self) -> (r: Self)
        ensures
            r == self.spec_times(o),
    ;

    fn negate(self) -> (r: Self)
        ensures
            r == self.spec_negate(),
    ;

    fn powi(self, n: i32) -> (r: Self)
        ensures
            r == self.spec_powi(n),
    ;

    fn tanh(self) -> (r: Self)
        ensures
            r == self.spec_tanh(),
    ;
}

/// The operation that produced a node.
#[derive(Clone, Copy, Debug, PartialEq, Eq, Structural)]
pub enum Op {
    Add,
    Sub,
    Mul,
    Powi(i32),
    Tanh,
}

/// The value of a binary node with operand values `x` and `y`.
pub open spec fn binary_value<V: Real>(op: Op, x: V, y: V) -> V {
    match op {
        Op::Add => x.spec_plus(y),
        Op::Sub => x.spec_minus(y),
        _ => x.spec_times(y),
    }
}

/// The operands of a node, left to right.
#[derive(Clone, Copy, Debug, PartialEq, Eq, Structural)]
pub enum Kids {
    Zero,
    One(usize),
    Two(usize, usize),
}

pub open spec fn kids_seq(k: Kids) -> Seq<usize> {
    match k {
        Kids::Zero => seq![],
        Kids::One(a) => seq![a],
        Kids::Two(a, b) => seq![a, b],
    }
}

/// How many operands an operation takes (a leaf has no operation).
pub open spec fn arity(op: Option<Op>) -> nat {
    match op {
        None => 0,
        Some(Op::Powi(_)) => 1,
        Some(Op::Tanh) => 1,
        Some(_) => 2,
    }
}

/// Whether `op` and `k` fit together and the exponent of a power can be
/// lowered by one.
pub open spec fn shape_ok(op: Option<Op>, k: Kids) -> bool {
    &&& kids_seq(k).len() == arity(op)
    &&& match op {
        Some(Op::Powi(n)) => n > i32::MIN,
        _ => true,
    }
}

/// An append-only arena of nodes, stored column by column.
///
/// Node `i` has value `data[i]`, gradient `grad[i]`, operation `op[i]`,
/// operands `kids[i]` and display name `label[i]`.
pub struct Graph<V> {
    pub data: Vec<V>,
    pub grad: Vec<V>,
    pub op: Vec<Option<Op>>,
    pub kids: Vec<Kids>,
    pub label: Vec<String>,
}

/// A handle on one node of a [`Graph`]: its index.
#[derive(Clone, Copy, Debug, PartialEq, Eq, Structural)]
pub struct Scalar {
    pub id: usize,
}

impl<V> Graph<V> {
    pub open spec fn len(&self) -> nat {
        self.op@.len()
    }

    pub open spec fn children(&self, i: int) -> Seq<usize> {
        kids_seq(self.kids@[i])
    }

    /// All columns have one entry per node, every node's operands fit its
    /// operation, and every operand was created before the node using it.
    pub open spec fn wf(&self) -> bool {
        &&& self.data@.len() == self.len()
        &&& self.grad@.len() == self.len()
        &&& self.kids@.len() == self.len()
        &&& self.label@.len() == self.len()
        &&& forall|i: int| 0 <= i < self.len() ==> #[trigger] shape_ok(self.op@[i], self.kids@[i])
        &&& forall|i: int, j: int|
            0 <= i < self.len() && 0 <= j < self.children(i).len() ==> #[trigger] self.children(
                i,
            )[j] < i
    }

    /// The graph's structure (operations, operands, labels) is that of `o`.
    pub open spec fn same_shape(&self, o: &Self) -> bool {
        &&& self.op@ == o.op@
        &&& self.kids@ == o.kids@
        &&& self.label@ == o.label@
    }

    /// `self` is `o` with one more node at the end, all older nodes untouched.
    pub open spec fn appends(&self, o: &Self) -> bool {
        &&& self.len() == o.len() + 1
        &&& self.data@.drop_last() == o.data@
        &&& self.grad@.drop_last() == o.grad@
        &&& self.op@.drop_last() == o.op@
        &&& self.kids@.drop_last() == o.kids@
        &&& self.label@.drop_last() == o.label@
    }

    /// Each entry of `path` is an operand of the entry before it.
    pub open spec fn is_path(&self, path: Seq<usize>) -> bool {
        forall|i: int|
            #![trigger path[i]]
            0 <= i < path.len() - 1 ==> self.children(path[i] as int).contains(path[i + 1])
    }

    /// Node `t` is reachable from `root`: a path of operands leads there.
    pub open spec fn reached(&self, root: int, t: int) -> bool {
        exists|path: Seq<usize>|
            path.len() > 0 && path[0] == root && path.last() == t && #[trigger] self.is_path(path)
    }

    /// Well-formedness only depends on the structure and the column lengths.
    pub proof fn lemma_wf_frame(&self, o: &Self)
        requires
            o.wf(),
            self.op@ == o.op@,
            self.kids@ == o.kids@,
            self.data@.len() == o.len(),
            self.grad@.len() == o.len(),
            self.label@.len() == o.len(),
        ensures
            self.wf(),
    {
        assert forall|i: int, j: int|
            0 <= i < self.len() && 0 <= j < self.children(i).len() implies #[trigger] self.children(
            i,
        )[j] < i by {
            assert(o.children(i)[j] < i);
        }
        assert forall|i: int| 0 <= i < self.len() implies #[trigger] shape_ok(
            self.op@[i],
            self.kids@[i],
        ) by {
            assert(shape_ok(o.op@[i], o.kids@[i]));
        }
    }

    /// `self` is `o` with zero or more nodes added at the end, all nodes of
    /// `o` untouched.
    pub open spec fn extends(&self, o: &Self) -> bool {
        &&& self.len() >= o.len()
        &&& self.data@.take(o.len() as int) == o.data@
        &&& self.grad@.take(o.len() as int) == o.grad@
        &&& self.op@.take(o.len() as int) == o.op@
        &&& self.kids@.take(o.len() as int) == o.kids@
        &&& self.label@.take(o.len() as int) == o.label@
    }

    pub proof fn lemma_extends_refl(&self)
        requires
            self.wf(),
        ensures
            self.extends(self),
    {
        assert(self.data@.take(self.len() as int) =~= self.data@);
        assert(self.grad@.take(self.len() as int) =~= self.grad@);
        assert(self.op@.take(self.len() as int) =~= self.op@);
        assert(self.kids@.take(self.len() as int) =~= self.kids@);
        assert(self.label@.take(self.len() as int) =~= self.label@);
    }

    /// Adding one node to an extension of `a` gives an extension of `a`.
    pub proof fn lemma_extends_push(a: &Self, b: &Self, c: &Self)
        requires
            a.wf(),
            b.wf(),
            c.wf(),
            b.extends(a),
            c.appends(b),
        ensures
            c.extends(a),
    {
        let n = a.len() as int;
        assert(c.data@.take(n) =~= b.data@.take(n));
        assert(c.grad@.take(n) =~= b.grad@.take(n));
        assert(c.op@.take(n) =~= b.op@.take(n));
        assert(c.kids@.take(n) =~= b.kids@.take(n));
        assert(c.label@.take(n) =~= b.label@.take(n));
    }

    /// An empty graph.
    pub fn new() -> (r: Graph<V>)
        ensures
            r.wf(),
            r.len() == 0,
    {
        Graph {
            data: Vec::new(),
            grad: Vec::new(),
            op: Vec::new(),
            kids: Vec::new(),
            label: Vec::new(),
        }
    }

    /// Number of nodes.
    pub fn size(&self) -> (r: usize)
        requires
            self.wf(),
        ensures
            r == self.len(),
    {
        self.op.len()
    }

    fn push_node(&mut self, data: V, grad: V, op: Option<Op>, kids: Kids, label: String) -> (r:
        Scalar)
        requires
            old(self).wf(),
            shape_ok(op, kids),
            forall|j: int| 0 <= j < kids_seq(kids).len() ==> kids_seq(kids)[j] < old(self).len(),
        ensures
            final(self).wf(),
            final(self).appends(old(self)),
            r.id == old(self).len(),
            final(self).data@[r.id as int] == data,
            final(self).grad@[r.id as int] == grad,
            final(self).op@[r.id as int] == op,
            final(self).kids@[r.id as int] == kids,
            final(self).label@[r.id as int] == label,
    {
        let id = self.op.len();
        self.data.push(data);
        self.grad.push(grad);
        self.op.push(op);
        self.kids.push(kids);
        self.label.push(label);
        proof {
            assert(self.data@.drop_last() =~= old(self).data@);
            assert(self.grad@.drop_last() =~= old(self).grad@);
            assert(self.op@.drop_last() =~= old(self).op@);
            assert(self.kids@.drop_last() =~= old(self).kids@);
            assert(self.label@.drop_last() =~= old(self).label@);
            assert forall|i: int| 0 <= i < self.len() implies #[trigger] shape_ok(
                self.op@[i],
                self.kids@[i],
            ) by {
                if i < id {
                    assert(self.op@[i] == old(self).op@[i]);
                    assert(self.kids@[i] == old(self).kids@[i]);
                }
            }
            assert forall|i: int, j: int|
                0 <= i < self.len() && 0 <= j < self.children(i).len() implies #[trigger] self.children(
                i,
            )[j] < i by {
                if i < id {
                    assert(self.kids@[i] == old(self).kids@[i]);
                    assert(old(self).children(i)[j] < i);
                }
            }
        }
        Scalar { id }
    }
}

impl Scalar {
    /// The node is in the graph.
    pub open spec fn valid<V>(self, g: &Graph<V>) -> bool {
        self.id < g.len()
    }

    /// A new leaf holding `data`, named `label`, with gradient zero.
    pub fn new<V: Real>(g: &mut Graph<V>, data: V, label: &str) -> (r: Scalar)
        requires
            old(g).wf(),
        ensures
            final(g).wf(),
            final(g).appends(old(g)),
            r.id == old(g).len(),
            final(g).data@[r.id as int] == data,
            final(g).grad@[r.id as int] == V::spec_zero(),
            final(g).op@[r.id as int] == None::<Op>,
            final(g).kids@[r.id as int] == Kids::Zero,
            final(g).label@[r.id as int]@ == label@,
    {
        let z = V::zero();
        g.push_node(data, z, None, Kids::Zero, label.to_string())
    }

    /// Renames the node; nothing else changes.
    pub fn label<V>(&self, g: &mut Graph<V>, l: &str)
        requires
            old(g).wf(),
            self.valid(old(g)),
        ensures
            final(g).wf(),
            final(g).data@ == old(g).data@,
            final(g).grad@ == old(g).grad@,
            final(g).op@ == old(g).op@,
            final(g).kids@ == old(g).kids@,
            final(g).label@ == old(g).label@.update(self.id as int, final(g).label@[self.id as int]),
            final(g).label@[self.id as int]@ == l@,
    {
        let ghost g0 = *g;
        g.label.set(self.id, l.to_string());
        proof {
            g.lemma_wf_frame(&g0);
        }
    }

    /// The node's current value.
    pub fn data<V: Copy>(&self, g: &Graph<V>) -> (r: V)
        requires
            g.wf(),
            self.valid(g),
        ensures
            r == g.data@[self.id as int],
    {
        g.data[self.id]
    }

    /// Overwrites the node's value; already built nodes keep theirs.
    pub fn set_data<V>(&self, g: &mut Graph<V>, data: V)
        requires
            old(g).wf(),
            self.valid(old(g)),
        ensures
            final(g).wf(),
            final(g).same_shape(old(g)),
            final(g).grad@ == old(g).grad@,
            final(g).data@ == old(g).data@.update(self.id as int, data),
    {
        let ghost g0 = *g;
        g.data.set(self.id, data);
        proof {
            g.lemma_wf_frame(&g0);
        }
    }

    /// The node's gradient from the last backward pass.
    pub fn grad<V: Copy>(&self, g: &Graph<V>) -> (r: V)
        requires
            g.wf(),
            self.valid(g),
        ensures
            r == g.grad@[self.id as int],
    {
        g.grad[self.id]
    }

    /// A new node `self op rhs` with operands `self` and `rhs`, its value
    /// computed from their values at the time of the call.
    fn binary<V: Real>(&self, g: &mut Graph<V>, op: Op, rhs: Scalar) -> (r: Scalar)
        requires
            old(g).wf(),
            self.valid(old(g)),
            rhs.valid(old(g)),
            arity(Some(op)) == 2,
        ensures
            final(g).wf(),
            final(g).appends(old(g)),
            r.id == old(g).len(),
            final(g).data@[r.id as int] == binary_value(
                op,
                old(g).data@[self.id as int],
                old(g).data@[rhs.id as int],
            ),
            final(g).grad@[r.id as int] == V::spec_zero(),
            final(g).op@[r.id as int] == Some(op),
            final(g).kids@[r.id as int] == Kids::Two(self.id, rhs.id),
            final(g).label@[r.id as int]@ == Seq::<char>::empty(),
    {
        let x = g.data[self.id];
        let y = g.data[rhs.id];
        let v = match op {
            Op::Add => x.plus(y),
            Op::Sub => x.minus(y),
            _ => x.times(y),
        };
        let z = V::zero();
        let r = g.push_node(v, z, Some(op), Kids::Two(self.id, rhs.id), String::new());
        proof {
            assert(final(g).label@[r.id as int]@ =~= Seq::<char>::empty());
        }
        r
    }

    /// `self + rhs`.
    pub fn add<V: Real>(&self, g: &mut Graph<V>, rhs: Scalar) -> (r: Scalar)
        requires
            old(g).wf(),
            self.valid(old(g)),
            rhs.valid(old(g)),
        ensures
            final(g).wf(),
            final(g).appends(old(g)),
            r.id == old(g).len(),
            final(g).data@[r.id as int] == old(g).data@[self.id as int].spec_plus(
                old(g).data@[rhs.id as int],
            ),
            final(g).grad@[r.id as int] == V::spec_zero(),
            final(g).op@[r.id as int] == Some(Op::Add),
            final(g).kids@[r.id as int] == Kids::Two(self.id, rhs.id),
            final(g).label@[r.id as int]@ == Seq::<char>::empty(),
    {
        self.binary(g, Op::Add, rhs)
    }

    /// `self - rhs`.
    pub fn sub<V: Real>(&self, g: &mut Graph<V>, rhs: Scalar) -> (r: Scalar)
        requires
            old(g).wf(),
            self.valid(old(g)),
            rhs.valid(old(g)),
        ensures
            final(g).wf(),
            final(g).appends(old(g)),
            r.id == old(g).len(),
            final(g).data@[r.id as int] == old(g).data@[self.id as int].spec_minus(
                old(g).data@[rhs.id as int],
            ),
            final(g).grad@[r.id as int] == V::spec_zero(),
            final(g).op@[r.id as int] == Some(Op::Sub),
            final(g).kids@[r.id as int] == Kids::Two(self.id, rhs.id),
            final(g).label@[r.id as int]@ == Seq::<char>::empty(),
    {
        self.binary(g, Op::Sub, rhs)
    }

    /// `self * rhs`.
    pub fn mul<V: Real>(&self, g: &mut Graph<V>, rhs: Scalar) -> (r: Scalar)
        requires
            old(g).wf(),
            self.valid(old(g)),
            rhs.valid(old(g)),
        ensures
            final(g).wf(),
            final(g).appends(old(g)),
            r.id == old(g).len(),
            final(g).data@[r.id as int] == old(g).data@[self.id as int].spec_times(
                old(g).data@[rhs.id as int],
            ),
            final(g).grad@[r.id as int] == V::spec_zero(),
            final(g).op@[r.id as int] == Some(Op::Mul),
            final(g).kids@[r.id as int] == Kids::Two(self.id, rhs.id),
            final(g).label@[r.id as int]@ == Seq::<char>::empty(),
    {
        self.binary(g, Op::Mul, rhs)
    }

    /// `self` raised to the integer power `n`.
    pub fn powi<V: Real>(&self, g: &mut Graph<V>, n: i32) -> (r: Scalar)
        requires
            old(g).wf(),
            self.valid(old(g)),
            n > i32::MIN,
        ensures
            final(g).wf(),
            final(g).appends(old(g)),
            r.id == old(g).len(),
            final(g).data@[r.id as int] == old(g).data@[self.id as int].spec_powi(n),
            final(g).grad@[r.id as int] == V::spec_zero(),
            final(g).op@[r.id as int] == Some(Op::Powi(n)),
            final(g).kids@[r.id as int] == Kids::One(self.id),
            final(g).label@[r.id as int]@ == Seq::<char>::empty(),
    {
        let v = g.data[self.id].powi(n);
        let z = V::zero();
        let r = g.push_node(v, z, Some(Op::Powi(n)), Kids::One(self.id), String::new());
        proof {
            assert(final(g).label@[r.id as int]@ =~= Seq::<char>::empty());
        }
        r
    }

    /// The hyperbolic tangent of `self`.
    pub fn tanh<V: Real>(&self, g: &mut Graph<V>) -> (r: Scalar)
        requires
            old(g).wf(),
            self.valid(old(g)),
        ensures
            final(g).wf(),
            final(g).appends(old(g)),
            r.id == old(g).len(),
            final(g).data@[r.id as int] == old(g).data@[self.id as int].spec_tanh(),
            final(g).grad@[r.id as int] == V::spec_zero(),
            final(g).op@[r.id as int] == Some(Op::Tanh),
            final(g).kids@[r.id as int] == Kids::One(self.id),
            final(g).label@[r.id as int]@ == Seq::<char>::empty(),
    {
        let v = g.data[self.id].tanh();
        let z = V::zero();
        let r = g.push_node(v, z, Some(Op::Tanh), Kids::One(self.id), String::new());
        proof {
            assert(final(g).label@[r.id as int]@ =~= Seq::<char>::empty());
        }
        r
    }
}

impl<V> Graph<V> {
    /// The root reaches itself.
    pub proof fn lemma_reached_root(&self, root: int)
        requires
            0 <= root <= usize::MAX,
        ensures
            self.reached(root, root),
    {
        let path = seq![root as usize];
        assert(self.is_path(path));
    }

    /// An operand of a reachable node is reachable.
    pub proof fn lemma_reached_child(&self, root: int, p: int, c: usize)
        requires
            self.reached(root, p),
            self.children(p).contains(c),
        ensures
            self.reached(root, c as int),
    {
        let path = choose|path: Seq<usize>|
            path.len() > 0 && path[0] == root && path.last() == p && #[trigger] self.is_path(path);
        let path2 = path.push(c);
        assert forall|i: int| 0 <= i < path2.len() - 1 implies self.children(
            #[trigger] path2[i] as int,
        ).contains(path2[i + 1]) by {
            if i < path.len() - 1 {
                assert(self.children(path[i] as int).contains(path[i + 1]));
            }
        }
        assert(self.is_path(path2));
    }

    proof fn lemma_path_below(&self, path: Seq<usize>, k: int)
        requires
            self.wf(),
            self.is_path(path),
            0 <= k < path.len(),
            path[0] < self.len(),
        ensures
            path[k] <= path[0],
        decreases k,
    {
        if k > 0 {
            self.lemma_path_below(path, k - 1);
            assert(self.children(path[k - 1] as int).contains(path[k]));
            let ch = self.children(path[k - 1] as int);
            let j = choose|j: int| 0 <= j < ch.len() && #[trigger] ch[j] == path[k];
            assert(self.children(path[k - 1] as int)[j] < path[k - 1]);
        }
    }

    /// A reachable node is the root or comes before it.
    pub proof fn lemma_reached_below(&self, root: int, t: int)
        requires
            self.wf(),
            0 <= root < self.len(),
            self.reached(root, t),
        ensures
            0 <= t <= root,
    {
        let path = choose|path: Seq<usize>|
            path.len() > 0 && path[0] == root && path.last() == t && #[trigger] self.is_path(path);
        self.lemma_path_below(path, path.len() - 1);
    }

    /// A reachable node other than the root is an operand of a reachable
    /// node that comes after it.
    pub proof fn lemma_reached_parent(&self, root: int, t: int) -> (q: int)
        requires
            self.wf(),
            0 <= root < self.len(),
            self.reached(root, t),
            t != root,
        ensures
            t < q <= root,
            self.reached(root, q),
            self.children(q).contains(t as usize),
    {
        let path = choose|path: Seq<usize>|
            path.len() > 0 && path[0] == root && path.last() == t && #[trigger] self.is_path(path);
        let n = path.len();
        let pre = path.take(n - 1);
        assert(n >= 2);
        assert forall|i: int| 0 <= i < pre.len() - 1 implies self.children(
            #[trigger] pre[i] as int,
        ).contains(pre[i + 1]) by {
            assert(self.children(path[i] as int).contains(path[i + 1]));
        }
        assert(self.is_path(pre));
        let q = path[n - 2] as int;
        assert(self.reached(root, q));
        self.lemma_reached_below(root, q);
        assert(self.children(q).contains(path[n - 1]));
        let ch = self.children(q);
        let j = choose|j: int| 0 <= j < ch.len() && #[trigger] ch[j] == t;
        assert(self.children(q)[j] < q);
        q
    }
}

/// In a list of nodes by decreasing index, such as the one `topo_order`
/// returns, a node always comes before each of its operands: gradients are
/// handed on in a reverse-topological order.
pub proof fn lemma_users_before_operands<V>(g: &Graph<V>, order: Seq<Scalar>, a: int, b: int)
    requires
        g.wf(),
        forall|x: int, y: int| 0 <= x < y < order.len() ==> order[x].id > order[y].id,
        0 <= a < order.len(),
        0 <= b < order.len(),
        order[a].valid(g),
        g.children(order[a].id as int).contains(order[b].id),
    ensures
        a < b,
{
    let ch = g.children(order[a].id as int);
    let j = choose|j: int| 0 <= j < ch.len() && #[trigger] ch[j] == order[b].id;
    assert(ch[j] < order[a].id);
    if b <= a {
        if b < a {
            assert(order[b].id > order[a].id);
        }
    }
}

impl Scalar {
    /// Every node reachable from `self`, each once, by decreasing index.
    ///
    /// Decreasing index puts every node before all of its operands, so the
    /// result is a reverse-topological order of the reachable subgraph,
    /// with `self` first: the order in which `backward` hands gradients on.
    pub fn topo_order<V>(&self, g: &Graph<V>) -> (r: Vec<Scalar>)
        requires
            g.wf(),
            self.valid(g),
        ensures
            r@.len() > 0,
            r@[0] == *self,
            forall|a: int, b: int| 0 <= a < b < r@.len() ==> r@[a].id > r@[b].id,
            forall|a: int| 0 <= a < r@.len() ==> #[trigger] r@[a].valid(g),
            forall|k: int|
                0 <= k < g.len() ==> (g.reached(self.id as int, k) <==> exists|a: int|
                    0 <= a < r@.len() && #[trigger] r@[a].id == k),
    {
        let root = self.id;
        let len = g.op.len();
        assert(root < len);
        let n = root + 1;
        let ghost rt = root as int;
        let mut mark: Vec<bool> = Vec::new();
        let mut m: usize = 0;
        while m < n
            invariant
                m <= n,
                mark@.len() == m,
                forall|k: int| 0 <= k < m ==> !mark@[k],
            decreases n - m,
        {
            mark.push(false);
            m += 1;
        }
        mark.set(root, true);
        let mut out: Vec<Scalar> = Vec::new();
        let mut i: usize = n;
        while i > 0
            invariant
                g.wf(),
                n == root + 1,
                n <= g.len(),
                rt == root,
                i <= n,
                mark@.len() == n,
                forall|k: int| i <= k < n ==> mark@[k] == g.reached(rt, k),
                forall|k: int|
                    0 <= k < i ==> (mark@[k] <==> (k == rt || exists|q: int|
                        i <= q < n && g.reached(rt, q) && g.children(q).contains(k as usize))),
                forall|a: int, b: int| 0 <= a < b < out@.len() ==> out@[a].id > out@[b].id,
                forall|a: int| 0 <= a < out@.len() ==> i <= #[trigger] out@[a].id < n,
                forall|k: int|
                    i <= k < n ==> (g.reached(rt, k) <==> exists|a: int|
                        0 <= a < out@.len() && #[trigger] out@[a].id == k),
            decreases i,
        {
            i -= 1;
            let ghost old_mark = mark@;
            let ghost old_out = out@;
            assert(mark@[i as int] == g.reached(rt, i as int)) by {
                if i < root {
                    if g.reached(rt, i as int) {
                        let q = g.lemma_reached_parent(rt, i as int);
                    }
                    if mark@[i as int] {
                        let q = choose|q: int|
                            i + 1 <= q < n && g.reached(rt, q) && g.children(q).contains(i);
                        g.lemma_reached_child(rt, q, i);
                    }
                } else {
                    g.lemma_reached_root(rt);
                }
            }
            if mark[i] {
                out.push(Scalar { id: i });
                match g.kids[i] {
                    Kids::Zero => {},
                    Kids::One(a) => {
                        assert(g.children(i as int)[0] == a);
                        mark.set(a, true);
                    },
                    Kids::Two(a, b) => {
                        assert(g.children(i as int)[0] == a);
                        assert(g.children(i as int)[1] == b);
                        mark.set(a, true);
                        mark.set(b, true);
                    },
                }
            }
            assert forall|k: int| 0 <= k < i implies (mark@[k] <==> (k == rt || exists|q: int|
                i <= q < n && g.reached(rt, q) && g.children(q).contains(k as usize))) by {
                if mark@[k] && !old_mark[k] {
                    assert(g.children(i as int)[0] == k || g.children(i as int)[1] == k);
                    assert(g.children(i as int).contains(k as usize));
                    assert(g.reached(rt, i as int));
                }
                if !mark@[k] && k != rt {
                    assert(!old_mark[k]);
                    if exists|q: int|
                        i <= q < n && g.reached(rt, q) && g.children(q).contains(k as usize) {
                        let q = choose|q: int|
                            i <= q < n && g.reached(rt, q) && g.children(q).contains(k as usize);
                        if q == i {
                            let j = choose|j: int|
                                0 <= j < g.children(i as int).len() && g.children(i as int)[j]
                                    == k as usize;
                            assert(mark@[k]);
                        } else {
                            assert(i + 1 <= q < n);
                        }
                    }
                }
            }
            assert forall|k: int| i <= k < n implies (g.reached(rt, k) <==> exists|a: int|
                0 <= a < out@.len() && #[trigger] out@[a].id == k) by {
                if k == i {
                    if g.reached(rt, k) {
                        assert(out@[out@.len() - 1].id == k);
                    } else {
                        assert(out@ == old_out);
                    }
                } else {
                    if g.reached(rt, k) {
                        let a = choose|a: int| 0 <= a < old_out.len() && #[trigger] old_out[a].id == k;
                        assert(out@[a].id == k);
                    }
                    if exists|a: int| 0 <= a < out@.len() && #[trigger] out@[a].id == k {
                        let a = choose|a: int| 0 <= a < out@.len() && #[trigger] out@[a].id == k;
                        if a < old_out.len() {
                            assert(old_out[a].id == k);
                        }
                    }
                }
            }
        }
        proof {
            g.lemma_reached_root(rt);
            let a = choose|a: int| 0 <= a < out@.len() && #[trigger] out@[a].id == rt;
            if a > 0 {
                assert(out@[0].id > out@[a].id);
            }
            assert forall|k: int| 0 <= k < g.len() implies (g.reached(rt, k) <==> exists|a: int|
                0 <= a < out@.len() && #[trigger] out@[a].id == k) by {
                if k >= n {
                    if g.reached(rt, k) {
                        g.lemma_reached_below(rt, k);
                    }
                    if exists|a: int| 0 <= a < out@.len() && #[trigger] out@[a].id == k {
                        let a = choose|a: int| 0 <= a < out@.len() && #[trigger] out@[a].id == k;
                        assert(out@[a].id < n);
                    }
                }
            }
        }
        out
    }
}

impl<V: Real> Graph<V> {
    /// The gradients after node `p` hands its gradient `grads[p]` to its
    /// operands by the rule of its operation, starting from `grads`:
    /// - `a + b`: `a` and `b` each gain the gradient;
    /// - `a - b`: `a` gains it, `b` gains its negation;
    /// - `a * b`: `b` gains `a`'s value times it, then `a` gains `b`'s value
    ///   times it;
    /// - `x^n`: `x` gains `n * x^(n - 1)` times it;
    /// - `tanh(x)`, of value `y`: `x` gains `(1 - y * y)` times it.
    ///
    /// When both operands are one node, it gains both shares.
    pub open spec fn grad_step(&self, p: int, grads: Seq<V>) -> Seq<V> {
        let gp = grads[p];
        let data = self.data@;
        match self.kids@[p] {
            Kids::Zero => grads,
            Kids::One(c) => {
                let d = match self.op@[p] {
                    Some(Op::Powi(n)) => V::spec_from_i32(n).spec_times(
                        data[c as int].spec_powi((n - 1) as i32),
                    ).spec_times(gp),
                    _ => V::spec_one().spec_minus(data[p].spec_times(data[p])).spec_times(gp),
                };
                grads.update(c as int, grads[c as int].spec_plus(d))
            },
            Kids::Two(a, b) => match self.op@[p] {
                Some(Op::Mul) => {
                    let g1 = grads.update(b as int, grads[b as int].spec_plus(data[a as int].spec_times(gp)));
                    g1.update(a as int, g1[a as int].spec_plus(data[b as int].spec_times(gp)))
                },
                Some(Op::Sub) => {
                    let g1 = grads.update(a as int, grads[a as int].spec_plus(gp));
                    g1.update(b as int, g1[b as int].spec_plus(gp.spec_negate()))
                },
                _ => {
                    let g1 = grads.update(a as int, grads[a as int].spec_plus(gp));
                    g1.update(b as int, g1[b as int].spec_plus(gp))
                },
            },
        }
    }

    /// The gradients at the start of a pass from `root`: one at the root,
    /// zero at every other node it reaches, unchanged elsewhere.
    pub open spec fn seeded(&self, root: int) -> Seq<V> {
        Seq::new(
            self.len(),
            |k: int|
                if k == root {
                    V::spec_one()
                } else if self.reached(root, k) {
                    V::spec_zero()
                } else {
                    self.grad@[k]
                },
        )
    }

    /// The gradients once every node reachable from `root` with index at
    /// least `m` has handed its gradient on, by decreasing index, starting
    /// from `start`.
    pub open spec fn run_to(&self, root: int, m: int, start: Seq<V>) -> Seq<V>
        decreases root + 1 - m,
    {
        if m > root {
            start
        } else {
            let prev = self.run_to(root, m + 1, start);
            if self.reached(root, m) {
                self.grad_step(m, prev)
            } else {
                prev
            }
        }
    }

    /// Nodes out of reach hand nothing on.
    pub proof fn lemma_run_skip(&self, root: int, lo: int, hi: int, start: Seq<V>)
        requires
            0 <= lo <= hi <= root + 1,
            forall|m: int| lo <= m < hi ==> !self.reached(root, m),
        ensures
            self.run_to(root, lo, start) == self.run_to(root, hi, start),
        decreases hi - lo,
    {
        if lo < hi {
            self.lemma_run_skip(root, lo + 1, hi, start);
        }
    }

    /// A step at `p` changes only the gradients of `p`'s operands.
    pub proof fn lemma_step_frame(&self, p: int, grads: Seq<V>, k: int)
        requires
            self.wf(),
            0 <= p < self.len(),
            grads.len() == self.len(),
            forall|j: int| 0 <= j < self.children(p).len() ==> self.children(p)[j] as int != k,
        ensures
            self.grad_step(p, grads).len() == grads.len(),
            0 <= k < grads.len() ==> self.grad_step(p, grads)[k] == grads[k],
    {
        assert(shape_ok(self.op@[p], self.kids@[p]));
        match self.kids@[p] {
            Kids::Zero => {},
            Kids::One(c) => {
                assert(self.children(p)[0] == c);
                assert(c < p);
            },
            Kids::Two(a, b) => {
                assert(self.children(p)[0] == a);
                assert(self.children(p)[1] == b);
                assert(a < p && b < p);
                match self.op@[p] {
                    Some(Op::Mul) => {},
                    Some(Op::Sub) => {},
                    _ => {},
                }
            },
        }
    }

    /// Running the steps from `m` on keeps the gradients of the nodes that
    /// no reachable node at or above `m` uses.
    proof fn lemma_run_frame(&self, root: int, m: int, start: Seq<V>, k: int)
        requires
            self.wf(),
            0 <= root < self.len(),
            0 <= m,
            start.len() == self.len(),
            0 <= k < start.len(),
            k == root || !self.reached(root, k),
        ensures
            self.run_to(root, m, start).len() == start.len(),
            self.run_to(root, m, start)[k] == start[k],
        decreases root + 1 - m,
    {
        if m <= root {
            self.lemma_run_frame(root, m + 1, start, k);
            if self.reached(root, m) {
                self.lemma_reached_below(root, m);
                assert forall|j: int| 0 <= j < self.children(m).len() implies self.children(m)[j] as int
                    != k by {
                    let c = self.children(m)[j];
                    assert(c < m);
                    if c as int == k {
                        assert(self.children(m).contains(c));
                        self.lemma_reached_child(root, m, c);
                    }
                }
                self.lemma_step_frame(m, self.run_to(root, m + 1, start), k);
            }
        }
    }

    /// A backward pass leaves the root's gradient at one.
    pub proof fn lemma_backprop_root(&self, root: int)
        requires
            self.wf(),
            0 <= root < self.len(),
        ensures
            self.backprop(root)[root] == V::spec_one(),
    {
        self.lemma_run_frame(root, 0, self.seeded(root), root);
    }

    /// A backward pass leaves the gradients of the nodes out of the root's
    /// reach as they were.
    pub proof fn lemma_backprop_unreached(&self, root: int, k: int)
        requires
            self.wf(),
            0 <= root < self.len(),
            0 <= k < self.len(),
            k != root,
            !self.reached(root, k),
        ensures
            self.backprop(root)[k] == self.grad@[k],
    {
        self.lemma_run_frame(root, 0, self.seeded(root), k);
    }

    /// Steps on gradients that agree on the reachable nodes agree there.
    proof fn lemma_run_agree(&self, h: &Self, root: int, m: int, x: Seq<V>, y: Seq<V>, k: int)
        requires
            self.wf(),
            h.wf(),
            h.op@ == self.op@,
            h.kids@ == self.kids@,
            h.data@ == self.data@,
            0 <= root < self.len(),
            0 <= m,
            x.len() == self.len(),
            y.len() == self.len(),
            forall|t: int| 0 <= t < self.len() && self.reached(root, t) ==> x[t] == y[t],
            0 <= k < self.len(),
            self.reached(root, k),
        ensures
            self.run_to(root, m, x)[k] == h.run_to(root, m, y)[k],
            self.run_to(root, m, x).len() == self.len(),
            h.run_to(root, m, y).len() == self.len(),
        decreases root + 1 - m,
    {
        assert forall|t: int, r: int| #![auto] h.reached(r, t) == self.reached(r, t) by {
            assert forall|path: Seq<usize>| #![auto] h.is_path(path) == self.is_path(path) by {
                assert forall|i: int| #![auto] h.children(i) == self.children(i) by {}
            }
        }
        if m <= root {
            let px = self.run_to(root, m + 1, x);
            let py = h.run_to(root, m + 1, y);
            assert forall|t: int| 0 <= t < self.len() && self.reached(root, t) implies px[t]
                == py[t] by {
                self.lemma_run_agree(h, root, m + 1, x, y, t);
            }
            self.lemma_run_agree(h, root, m + 1, x, y, k);
            if self.reached(root, m) {
                self.lemma_reached_below(root, m);
                assert(h.grad_step(m, py) == self.grad_step(m, py));
                assert(shape_ok(self.op@[m], self.kids@[m]));
                match self.kids@[m] {
                    Kids::Zero => {},
                    Kids::One(c) => {
                        assert(self.children(m)[0] == c);
                        assert(self.children(m).contains(c));
                        self.lemma_reached_child(root, m, c);
                        assert(c < m);
                    },
                    Kids::Two(a, b) => {
                        assert(self.children(m)[0] == a);
                        assert(self.children(m)[1] == b);
                        assert(self.children(m).contains(a));
                        assert(self.children(m).contains(b));
                        self.lemma_reached_child(root, m, a);
                        self.lemma_reached_child(root, m, b);
                        assert(a < m && b < m);
                    },
                }
            }
        }
    }

    /// The gradients a backward pass gives the reachable nodes depend on
    /// the graph's structure and values only: whatever gradients a previous
    /// pass left, none of it remains.
    pub proof fn lemma_backprop_fresh(&self, h: &Self, root: int, k: int)
        requires
            self.wf(),
            h.wf(),
            h.op@ == self.op@,
            h.kids@ == self.kids@,
            h.data@ == self.data@,
            0 <= root < self.len(),
            0 <= k < self.len(),
            self.reached(root, k),
        ensures
            self.backprop(root)[k] == h.backprop(root)[k],
    {
        assert forall|t: int, r: int| #![auto] h.reached(r, t) == self.reached(r, t) by {
            assert forall|path: Seq<usize>| #![auto] h.is_path(path) == self.is_path(path) by {
                assert forall|i: int| #![auto] h.children(i) == self.children(i) by {}
            }
        }
        let x = self.seeded(root);
        let y = h.seeded(root);
        assert forall|t: int| 0 <= t < self.len() && self.reached(root, t) implies x[t] == y[t] by {}
        self.lemma_run_agree(h, root, 0, x, y, k);
    }

    proof fn lemma_self_sum_reach(&self, a: usize, d: usize, t: int)
        requires
            self.wf(),
            a < d < self.len(),
            self.kids@[a as int] == Kids::Zero,
            self.kids@[d as int] == Kids::Two(a, a),
            self.reached(d as int, t),
        ensures
            t == d || t == a,
        decreases d - t,
    {
        self.lemma_reached_below(d as int, t);
        if t != d {
            let q = self.lemma_reached_parent(d as int, t);
            self.lemma_self_sum_reach(a, d, q);
            if q == a {
                assert(self.children(q).len() == 0);
            } else {
                assert(self.children(q) =~= seq![a, a]);
            }
        }
    }

    /// For `d = a + a` with `a` a leaf, a backward pass from `d` leaves `d`
    /// with gradient one and `a` with `0 + 1 + 1`: both uses count.
    pub proof fn lemma_self_sum(&self, a: usize, d: usize)
        requires
            self.wf(),
            a < d < self.len(),
            self.op@[a as int] == None::<Op>,
            self.kids@[a as int] == Kids::Zero,
            self.op@[d as int] == Some(Op::Add),
            self.kids@[d as int] == Kids::Two(a, a),
        ensures
            self.backprop(d as int)[d as int] == V::spec_one(),
            self.backprop(d as int)[a as int] == V::spec_zero().spec_plus(V::spec_one()).spec_plus(
                V::spec_one(),
            ),
    {
        let r = d as int;
        let s = self.seeded(r);
        self.lemma_backprop_root(r);
        self.lemma_reached_root(r);
        assert(self.children(r) =~= seq![a, a]);
        assert(self.children(r).contains(a));
        self.lemma_reached_child(r, r, a);
        assert(s[a as int] == V::spec_zero());
        assert(s[r] == V::spec_one());
        assert(self.run_to(r, r + 1, s) == s);
        let s1 = self.run_to(r, r, s);
        assert(s1 == self.grad_step(r, s));
        assert(s1[a as int] == V::spec_zero().spec_plus(V::spec_one()).spec_plus(V::spec_one()));
        assert forall|m: int| a + 1 <= m < r implies !self.reached(r, m) by {
            if self.reached(r, m) {
                self.lemma_self_sum_reach(a, d, m);
            }
        }
        self.lemma_run_skip(r, a + 1, r, s);
        assert(self.run_to(r, a as int, s) == self.grad_step(a as int, s1));
        assert(self.grad_step(a as int, s1) == s1);
        assert forall|m: int| 0 <= m < a implies !self.reached(r, m) by {
            if self.reached(r, m) {
                self.lemma_self_sum_reach(a, d, m);
            }
        }
        self.lemma_run_skip(r, 0, a as int, s);
    }

    /// The gradients that a backward pass from `root` leaves.
    pub open spec fn backprop(&self, root: int) -> Seq<V> {
        self.run_to(root, 0, self.seeded(root))
    }
}

impl Scalar {
    /// Adds this node's share of the gradient into its operands' gradients,
    /// by the rule of its operation. Only the operands' gradients change.
    fn cal_grad<V: Real>(&self, g: &mut Graph<V>)
        requires
            old(g).wf(),
            self.valid(old(g)),
        ensures
            final(g).wf(),
            final(g).same_shape(old(g)),
            final(g).data@ == old(g).data@,
            final(g).grad@ == old(g).grad_step(self.id as int, old(g).grad@),
    {
        let ghost g0 = *g;
        let p = self.id;
        let gp = g.grad[p];
        let op = g.op[p];
        let kids = g.kids[p];
        proof {
            assert(shape_ok(g.op@[p as int], g.kids@[p as int]));
        }
        match kids {
            Kids::Zero => {},
            Kids::One(c) => {
                assert(g.children(p as int)[0] == c);
                let d = match op {
                    Some(Op::Powi(n)) => {
                        let x = g.data[c];
                        V::from_i32(n).times(x.powi(n - 1)).times(gp)
                    },
                    _ => V::one().minus(g.data[p].times(g.data[p])).times(gp),
                };
                let v = g.grad[c].plus(d);
                g.grad.set(c, v);
            },
            Kids::Two(a, b) => {
                assert(g.children(p as int)[0] == a);
                assert(g.children(p as int)[1] == b);
                match op {
                    Some(Op::Mul) => {
                        let xa = g.data[a];
                        let xb = g.data[b];
                        let vb = g.grad[b].plus(xa.times(gp));
                        g.grad.set(b, vb);
                        let va = g.grad[a].plus(xb.times(gp));
                        g.grad.set(a, va);
                    },
                    Some(Op::Sub) => {
                        let va = g.grad[a].plus(gp);
                        g.grad.set(a, va);
                        let vb = g.grad[b].plus(gp.negate());
                        g.grad.set(b, vb);
                    },
                    _ => {
                        let va = g.grad[a].plus(gp);
                        g.grad.set(a, va);
                        let vb = g.grad[b].plus(gp);
                        g.grad.set(b, vb);
                    },
                }
            },
        }
        proof {
            g.lemma_wf_frame(&g0);
        }
    }

    /// Sets the gradient of every node in `nodes` to `z`; nothing else changes.
    fn reset_grads<V: Copy>(g: &mut Graph<V>, nodes: &Vec<Scalar>, z: V)
        requires
            old(g).wf(),
            forall|a: int| #![trigger nodes@[a]]
                0 <= a < nodes@.len() ==> nodes@[a].valid(old(g)),
        ensures
            final(g).wf(),
            final(g).same_shape(old(g)),
            final(g).data@ == old(g).data@,
            final(g).grad@.len() == old(g).grad@.len(),
            forall|a: int| 0 <= a < nodes@.len() ==> final(g).grad@[#[trigger] nodes@[a].id as int] == z,
            forall|k: int|
                0 <= k < old(g).len() && (forall|a: int| 0 <= a < nodes@.len() ==> #[trigger] nodes@[a].id != k)
                    ==> final(g).grad@[k] == old(g).grad@[k],
    {
        let ghost g0 = *g;
        let mut i: usize = 0;
        while i < nodes.len()
            invariant
                g.wf(),
                g.same_shape(&g0),
                g.data@ == g0.data@,
                g.grad@.len() == g0.grad@.len(),
                g0.len() == g.len(),
                i <= nodes@.len(),
                forall|a: int| #![trigger nodes@[a]]
                0 <= a < nodes@.len() ==> nodes@[a].valid(&g0),
                forall|a: int| 0 <= a < i ==> g.grad@[#[trigger] nodes@[a].id as int] == z,
                forall|k: int|
                    0 <= k < g0.len() && (forall|a: int| 0 <= a < i ==> #[trigger] nodes@[a].id != k)
                        ==> g.grad@[k] == g0.grad@[k],
            decreases nodes@.len() - i,
        {
            let ghost gi = *g;
            let id = nodes[i].id;
            assert(nodes@[i as int].valid(&g0));
            g.grad.set(id, z);
            proof {
                g.lemma_wf_frame(&gi);
                assert forall|a: int| 0 <= a < i + 1 implies g.grad@[#[trigger] nodes@[a].id as int]
                    == z by {
                    assert(nodes@[a].valid(&g0));
                    if a < i && nodes@[a].id != id {
                        assert(g.grad@[nodes@[a].id as int] == gi.grad@[nodes@[a].id as int]);
                    }
                }
                assert forall|k: int|
                    0 <= k < g0.len() && (forall|a: int| 0 <= a < i + 1 ==> #[trigger] nodes@[a].id != k)
                        implies g.grad@[k] == g0.grad@[k] by {
                    assert(nodes@[i as int].id != k);
                }
            }
            i += 1;
        }
    }

    /// Computes, into `grad`, the derivative of this node with respect to
    /// every node it reaches.
    ///
    /// The gradients of all reachable nodes are first reset to zero and
    /// this node's is seeded with one; then each reachable node hands its
    /// gradient to its operands. Nodes are handled by decreasing index, a
    /// reverse-topological order, so a node has received every contribution
    /// from its users before it passes its own gradient on, whatever the
    /// sharing in the graph. Nodes out of reach keep their gradients, and
    /// nothing but gradients changes.
    pub fn backward<V: Real>(&self, g: &mut Graph<V>)
        requires
            old(g).wf(),
            self.valid(old(g)),
        ensures
            final(g).wf(),
            final(g).same_shape(old(g)),
            final(g).data@ == old(g).data@,
            final(g).grad@ == old(g).backprop(self.id as int),
    {
        let ghost g0 = *g;
        let ghost rt = self.id as int;
        let order = self.topo_order(g);
        let z = V::zero();
        Scalar::reset_grads(g, &order, z);
        let ghost gi = *g;
        let one = V::one();
        g.grad.set(self.id, one);
        proof {
            g.lemma_wf_frame(&gi);
            assert forall|k: int| 0 <= k < g0.len() implies g.grad@[k] == g0.seeded(rt)[k] by {
                if k != rt {
                    if g0.reached(rt, k) {
                        let a = choose|a: int| 0 <= a < order@.len() && #[trigger] order@[a].id == k;
                        assert(gi.grad@[order@[a].id as int] == z);
                    } else {
                        assert forall|a: int| 0 <= a < order@.len() implies #[trigger] order@[a].id
                            != k by {
                            if order@[a].id == k {
                                assert(g0.reached(rt, k));
                            }
                        }
                    }
                }
            }
            assert(g.grad@ =~= g0.seeded(rt));
        }
        let len = g.op.len();
        let ghost mut mi: int = rt + 1;
        let mut i: usize = 0;
        while i < order.len()
            invariant
                g.wf(),
                g0.len() == len,
                g.same_shape(&g0),
                g.data@ == g0.data@,
                g.grad@.len() == g0.grad@.len(),
                g0.len() == g.len(),
                g0.wf(),
                rt == self.id,
                self.valid(&g0),
                i <= order@.len(),
                mi == if i == 0 {
                    rt + 1
                } else {
                    order@[i - 1].id as int
                },
                forall|a: int, b: int| 0 <= a < b < order@.len() ==> order@[a].id > order@[b].id,
                order@[0].id == rt,
                forall|a: int| 0 <= a < order@.len() ==> #[trigger] order@[a].valid(&g0),
                forall|k: int|
                    0 <= k < g0.len() ==> (g0.reached(rt, k) <==> exists|a: int|
                        0 <= a < order@.len() && #[trigger] order@[a].id == k),
                g.grad@ == g0.run_to(rt, mi, g0.seeded(rt)),
            decreases order@.len() - i,
        {
            let ghost gi = *g;
            let s = order[i];
            let ghost p = s.id as int;
            assert(order@[i as int].valid(&g0));
            s.cal_grad(g);
            proof {
                assert(g0.reached(rt, p));
                assert forall|m: int| p + 1 <= m < mi implies !g0.reached(rt, m) by {
                    if g0.reached(rt, m) {
                        let a = choose|a: int| 0 <= a < order@.len() && #[trigger] order@[a].id == m;
                        if a >= i {
                            if a > i {
                                assert(order@[i as int].id > order@[a].id);
                            }
                        } else {
                            if a < i - 1 {
                                assert(order@[a].id > order@[i - 1].id);
                            }
                        }
                    }
                }
                if i > 0 {
                    assert(order@[i - 1].id > order@[i as int].id);
                } else {
                    assert(p <= rt);
                }
                g0.lemma_run_skip(rt, p + 1, mi, g0.seeded(rt));
                assert(gi.grad_step(p, gi.grad@) == g0.grad_step(p, gi.grad@));
                mi = p;
            }
            i += 1;
        }
        proof {
            let last = order@[order@.len() - 1].id as int;
            assert forall|m: int| 0 <= m < last implies !g0.reached(rt, m) by {
                if g0.reached(rt, m) {
                    let a = choose|a: int| 0 <= a < order@.len() && #[trigger] order@[a].id == m;
                    if a < order@.len() - 1 {
                        assert(order@[a].id > order@[order@.len() - 1].id);
                    }
                }
            }
            g0.lemma_run_skip(rt, 0, last, g0.seeded(rt));
        }
    }
}

/// A position of node `c` in `nodes`; the only one when no node repeats.
pub open spec fn pos(nodes: Seq<Scalar>, c: usize) -> int {
    choose|i: int| 0 <= i < nodes.len() && nodes[i].id == c
}

/// The indices of `nodes`.
#[verifier::opaque]
pub open spec fn ids(nodes: Seq<Scalar>) -> Seq<usize> {
    nodes.map_values(|x: Scalar| x.id)
}

/// `s` with every entry after its first occurrence left out.
#[verifier::opaque]
pub open spec fn dedup(s: Seq<usize>) -> Seq<usize>
    decreases s.len(),
{
    if s.len() == 0 {
        seq![]
    } else {
        let d = dedup(s.drop_last());
        if d.contains(s.last()) {
            d
        } else {
            d.push(s.last())
        }
    }
}

/// Listing `c` when it is new keeps `nodes` the first occurrences of the
/// operands met so far.
proof fn lemma_dedup_link(d: Seq<usize>, before: Seq<Scalar>, after: Seq<Scalar>, c: usize)
    requires
        ids(before) == dedup(d),
        ids(before).contains(c) ==> after == before,
        !ids(before).contains(c) ==> after == before.push(Scalar { id: c }),
    ensures
        ids(after) == dedup(d.push(c)),
{
    reveal(ids);
    reveal_with_fuel(dedup, 1);
    assert(d.push(c).drop_last() =~= d);
    if !ids(before).contains(c) {
        assert(ids(after) =~= ids(before).push(c));
    }
}

/// No node occurs twice in `nodes`.
pub open spec fn distinct(nodes: Seq<Scalar>) -> bool {
    forall|a: int, b: int| 0 <= a < b < nodes.len() ==> nodes[a].id != nodes[b].id
}

proof fn lemma_pos(nodes: Seq<Scalar>, i: int)
    requires
        distinct(nodes),
        0 <= i < nodes.len(),
    ensures
        pos(nodes, nodes[i].id) == i,
{
    let c = nodes[i].id;
    assert(0 <= i < nodes.len() && nodes[i].id == c);
    let j = pos(nodes, c);
    if j != i {
        if j < i {
            assert(nodes[j].id != nodes[i].id);
        } else {
            assert(nodes[i].id != nodes[j].id);
        }
    }
}

proof fn lemma_distinct_bound(nodes: Seq<Scalar>, n: int)
    requires
        distinct(nodes),
        0 <= n,
        forall|a: int| 0 <= a < nodes.len() ==> #[trigger] nodes[a].id < n,
    ensures
        nodes.len() <= n,
{
    let ids = nodes.map_values(|s: Scalar| s.id as int);
    assert(ids.no_duplicates()) by {
        assert forall|a: int, b: int| 0 <= a < ids.len() && 0 <= b < ids.len() && a != b implies ids[a]
            != ids[b] by {
            if a < b {
                assert(nodes[a].id != nodes[b].id);
            } else {
                assert(nodes[b].id != nodes[a].id);
            }
        }
    }
    ids.unique_seq_to_set();
    vstd::set_lib::lemma_int_range(0, n);
    assert(ids.to_set().subset_of(vstd::set_lib::set_int_range(0, n))) by {
        assert forall|x: int| ids.to_set().contains(x) implies vstd::set_lib::set_int_range(
            0,
            n,
        ).contains(x) by {
            let a = choose|a: int| 0 <= a < ids.len() && ids[a] == x;
            assert(nodes[a].id < n);
        }
    }
    vstd::set_lib::lemma_len_subset(ids.to_set(), vstd::set_lib::set_int_range(0, n));
}

/// The position of `c` in `nodes`, if it is there.
fn find(nodes: &Vec<Scalar>, c: usize) -> (r: Option<usize>)
    ensures
        match r {
            Some(i) => i < nodes@.len() && nodes@[i as int].id == c,
            None => forall|i: int| 0 <= i < nodes@.len() ==> nodes@[i].id != c,
        },
{
    let mut i: usize = 0;
    while i < nodes.len()
        invariant
            i <= nodes@.len(),
            forall|k: int| 0 <= k < i ==> nodes@[k].id != c,
        decreases nodes@.len() - i,
    {
        if nodes[i].id == c {
            return Some(i);
        }
        i += 1;
    }
    None
}

impl<V> Graph<V> {
    /// The edges from the operands of `nodes[p]` to it, as pairs of
    /// positions in `nodes`, left operand first.
    pub open spec fn edges_of(&self, nodes: Seq<Scalar>, p: int) -> Seq<(usize, usize)> {
        self.children(nodes[p].id as int).map_values(|c: usize| (pos(nodes, c) as usize, p as usize))
    }

    /// The operands of the first `p` entries of `nodes`, in order, each
    /// node's left operand first.
    pub open spec fn kid_stream(&self, nodes: Seq<Scalar>, p: nat) -> Seq<usize>
        decreases p,
    {
        if p == 0 {
            seq![]
        } else {
            self.kid_stream(nodes, (p - 1) as nat) + self.children(nodes[p - 1].id as int)
        }
    }

    /// The listing order after visiting the node at `pointer`.
    proof fn lemma_order_step(&self, n0: Seq<Scalar>, nodes: Seq<Scalar>, pointer: nat)
        requires
            n0.len() <= nodes.len(),
            n0 == nodes.take(n0.len() as int),
            pointer < n0.len(),
            ids(nodes) == dedup(
                seq![n0[0].id] + self.kid_stream(n0, pointer) + self.children(n0[pointer as int].id as int),
            ),
        ensures
            ids(nodes) == dedup(seq![nodes[0].id] + self.kid_stream(nodes, pointer + 1)),
    {
        self.lemma_kid_stream_grow(n0, nodes, pointer);
        assert(nodes[0] == n0[0]);
        assert(nodes[pointer as int] == n0[pointer as int]);
        assert(seq![nodes[0].id] + self.kid_stream(nodes, pointer + 1) =~= seq![n0[0].id]
            + self.kid_stream(n0, pointer) + self.children(n0[pointer as int].id as int));
    }

    proof fn lemma_kid_stream_grow(&self, nodes: Seq<Scalar>, more: Seq<Scalar>, p: nat)
        requires
            nodes.len() <= more.len(),
            nodes == more.take(nodes.len() as int),
            p <= nodes.len(),
        ensures
            self.kid_stream(more, p) == self.kid_stream(nodes, p),
        decreases p,
    {
        if p > 0 {
            self.lemma_kid_stream_grow(nodes, more, (p - 1) as nat);
            assert(more[p - 1] == nodes[p - 1]);
        }
    }

    /// The edges into the first `p` entries of `nodes`, in order.
    pub open spec fn edges_upto(&self, nodes: Seq<Scalar>, p: nat) -> Seq<(usize, usize)>
        decreases p,
    {
        if p == 0 {
            seq![]
        } else {
            self.edges_upto(nodes, (p - 1) as nat) + self.edges_of(nodes, p - 1)
        }
    }

    /// Growing `nodes` keeps the edges already listed, as long as the
    /// operands they name were there already.
    proof fn lemma_edges_grow(&self, nodes: Seq<Scalar>, more: Seq<Scalar>, p: nat)
        requires
            distinct(more),
            nodes.len() <= more.len(),
            nodes == more.take(nodes.len() as int),
            p <= nodes.len(),
            forall|q: int, j: int|
                0 <= q < p && 0 <= j < self.children(nodes[q].id as int).len() ==> exists|i: int|
                    0 <= i < nodes.len() && nodes[i].id == #[trigger] self.children(
                        nodes[q].id as int,
                    )[j],
        ensures
            self.edges_upto(more, p) == self.edges_upto(nodes, p),
        decreases p,
    {
        if p > 0 {
            self.lemma_edges_grow(nodes, more, (p - 1) as nat);
            let q = p - 1;
            assert(nodes[q] == more[q]);
            let ch = self.children(nodes[q].id as int);
            assert forall|j: int| 0 <= j < ch.len() implies pos(more, #[trigger] ch[j]) == pos(
                nodes,
                ch[j],
            ) by {
                let i = choose|i: int| 0 <= i < nodes.len() && nodes[i].id == ch[j];
                assert(more[i] == nodes[i]);
                lemma_pos(more, i);
                assert(distinct(nodes));
                lemma_pos(nodes, i);
            }
            assert(self.edges_of(more, q) =~= self.edges_of(nodes, q));
        }
    }
}

/// Records the edge from operand `c` to the node at position `p`, adding `c`
/// to `nodes` first when it is not there yet. Returns the position of `c`.
fn link(nodes: &mut Vec<Scalar>, edges: &mut Vec<(usize, usize)>, c: usize, p: usize) -> (i: usize)
    requires
        distinct(old(nodes)@),
    ensures
        distinct(final(nodes)@),
        i < final(nodes)@.len(),
        final(nodes)@[i as int].id == c,
        ids(old(nodes)@).contains(c) ==> final(nodes)@ == old(nodes)@,
        !ids(old(nodes)@).contains(c) ==> final(nodes)@ == old(nodes)@.push(Scalar { id: c }),
        final(edges)@ == old(edges)@.push((i, p)),
{
    proof {
        reveal(ids);
    }
    match find(nodes, c) {
        Some(i) => {
            assert(ids(nodes@)[i as int] == c);
            edges.push((i, p));
            i
        },
        None => {
            assert(!ids(nodes@).contains(c)) by {
                if ids(nodes@).contains(c) {
                    let k = choose|k: int| 0 <= k < ids(nodes@).len() && ids(nodes@)[k] == c;
                    assert(nodes@[k].id == c);
                }
            }
            let i = nodes.len();
            nodes.push(Scalar { id: c });
            edges.push((i, p));
            i
        },
    }
}

impl<V> Graph<V> {
    /// One step of the breadth-first listing: the node at `pointer` has had
    /// its operands appended (those not listed yet).
    proof fn lemma_trace_step(&self, rt: int, n0: Seq<Scalar>, nodes: Seq<Scalar>, pointer: int)
        requires
            self.wf(),
            0 <= rt < self.len(),
            distinct(nodes),
            n0.len() <= nodes.len(),
            n0 == nodes.take(n0.len() as int),
            0 <= pointer < n0.len(),
            forall|a: int|
                #![trigger n0[a]]
                0 <= a < n0.len() ==> n0[a].valid(self) && self.reached(
                    rt,
                    n0[a].id as int,
                ),
            forall|q: int, j: int|
                0 <= q < pointer && 0 <= j < self.children(n0[q].id as int).len() ==> exists|i: int|
                    0 <= i < n0.len() && n0[i].id == #[trigger] self.children(n0[q].id as int)[j],
            forall|a: int|
                n0.len() <= a < nodes.len() ==> self.children(n0[pointer].id as int).contains(
                    #[trigger] nodes[a].id,
                ),
            forall|j: int|
                0 <= j < self.children(n0[pointer].id as int).len() ==> exists|i: int|
                    0 <= i < nodes.len() && nodes[i].id == #[trigger] self.children(
                        n0[pointer].id as int,
                    )[j],
        ensures
            nodes.len() <= self.len(),
            forall|a: int|
                #![trigger nodes[a]]
                0 <= a < nodes.len() ==> nodes[a].valid(self) && self.reached(
                    rt,
                    nodes[a].id as int,
                ),
            forall|q: int, j: int|
                0 <= q < pointer + 1 && 0 <= j < self.children(nodes[q].id as int).len()
                    ==> exists|i: int|
                    0 <= i < nodes.len() && nodes[i].id == #[trigger] self.children(
                        nodes[q].id as int,
                    )[j],
    {
        let p = n0[pointer].id;
        assert(n0[pointer].valid(self));
        assert forall|a: int| #![trigger nodes[a]]
                0 <= a < nodes.len() implies nodes[a].valid(self)
            && self.reached(rt, nodes[a].id as int) by {
            if a < n0.len() {
                assert(nodes[a] == n0[a]);
                assert(n0[a].valid(self));
            } else {
                let c = nodes[a].id;
                assert(self.children(p as int).contains(c));
                self.lemma_reached_child(rt, p as int, c);
                self.lemma_reached_below(rt, c as int);
            }
        }
        assert forall|a: int| 0 <= a < nodes.len() implies #[trigger] nodes[a].id < self.len() by {
            assert(nodes[a].valid(self));
        }
        lemma_distinct_bound(nodes, self.len() as int);
        assert forall|q: int, j: int|
            0 <= q < pointer + 1 && 0 <= j < self.children(nodes[q].id as int).len()
                implies exists|i: int|
                0 <= i < nodes.len() && nodes[i].id == #[trigger] self.children(
                    nodes[q].id as int,
                )[j] by {
            assert(nodes[q] == n0[q]);
            if q < pointer {
                let i = choose|i: int|
                    0 <= i < n0.len() && n0[i].id == #[trigger] self.children(n0[q].id as int)[j];
                assert(nodes[i] == n0[i]);
            }
        }
    }

    /// When every operand of every listed node is listed too, every node
    /// that the first one reaches is listed.
    proof fn lemma_closed_covers(&self, nodes: Seq<Scalar>, root: int, t: int) -> (i: int)
        requires
            self.wf(),
            0 <= root < self.len(),
            nodes.len() > 0,
            nodes[0].id == root,
            forall|q: int, j: int|
                0 <= q < nodes.len() && 0 <= j < self.children(nodes[q].id as int).len()
                    ==> exists|i: int|
                    0 <= i < nodes.len() && nodes[i].id == #[trigger] self.children(
                        nodes[q].id as int,
                    )[j],
            self.reached(root, t),
        ensures
            0 <= i < nodes.len() && nodes[i].id == t,
        decreases root - t,
    {
        self.lemma_reached_below(root, t);
        if t != root {
            let q = self.lemma_reached_parent(root, t);
            let a = self.lemma_closed_covers(nodes, root, q);
            let ch = self.children(q);
            let j = choose|j: int| 0 <= j < ch.len() && #[trigger] ch[j] == t;
            assert(self.children(nodes[a].id as int)[j] == t);
            choose|i: int| 0 <= i < nodes.len() && nodes[i].id == #[trigger] self.children(
                nodes[a].id as int,
            )[j]
        } else {
            0
        }
    }
}

/// Lists the operands of node `p`, which stands at position `pointer`,
/// left first, with their edges.
#[verifier::rlimit(60)]
fn link_kids<V>(
    g: &Graph<V>,
    nodes: &mut Vec<Scalar>,
    edges: &mut Vec<(usize, usize)>,
    pointer: usize,
    p: usize,
    d: Ghost<Seq<usize>>,
)
    requires
        g.wf(),
        p < g.len(),
        distinct(old(nodes)@),
        pointer < old(nodes)@.len(),
        old(nodes)@[pointer as int].id == p,
        ids(old(nodes)@) == dedup(d@),
    ensures
        distinct(final(nodes)@),
        old(nodes)@.len() <= final(nodes)@.len(),
        old(nodes)@ == final(nodes)@.take(old(nodes)@.len() as int),
        ids(final(nodes)@) == dedup(d@ + g.children(p as int)),
        forall|a: int|
            old(nodes)@.len() <= a < final(nodes)@.len() ==> g.children(p as int).contains(
                #[trigger] final(nodes)@[a].id,
            ),
        forall|j: int|
            0 <= j < g.children(p as int).len() ==> exists|k: int|
                0 <= k < final(nodes)@.len() && final(nodes)@[k].id == #[trigger] g.children(
                    p as int,
                )[j],
        final(edges)@ == old(edges)@ + g.edges_of(final(nodes)@, pointer as int),
{
    let ghost d = d@;
    let ghost n0 = nodes@;
    let ghost e0 = edges@;
    let ghost ch = g.children(p as int);
    match g.kids[p] {
        Kids::Zero => {
            assert(ch.len() == 0);
            assert(g.edges_of(nodes@, pointer as int) =~= seq![]);
            assert(edges@ =~= e0 + g.edges_of(nodes@, pointer as int));
            assert(d + ch =~= d);
            assert(ids(nodes@) == dedup(d + ch));
        },
        Kids::One(c) => {
            assert(ch =~= seq![c]);
            let ghost nb = nodes@;
            let i = link(nodes, edges, c, pointer);
            proof {
                lemma_dedup_link(d, nb, nodes@, c);
                assert(d + ch =~= d.push(c));
                assert(ids(nodes@) == dedup(d + ch));
                assert forall|a: int| n0.len() <= a < nodes@.len() implies ch.contains(
                    #[trigger] nodes@[a].id,
                ) by {
                    assert(nodes@[a].id == c);
                    assert(ch[0] == c);
                }
                assert forall|j: int| 0 <= j < ch.len() implies exists|k: int|
                    0 <= k < nodes@.len() && nodes@[k].id == #[trigger] ch[j] by {
                    assert(nodes@[i as int].id == ch[j]);
                }
                lemma_pos(nodes@, i as int);
                assert(g.edges_of(nodes@, pointer as int) =~= seq![(i, pointer)]);
                assert(edges@ =~= e0 + g.edges_of(nodes@, pointer as int));
            }
        },
        Kids::Two(a, b) => {
            assert(ch =~= seq![a, b]);
            let ghost nb = nodes@;
            let i = link(nodes, edges, a, pointer);
            let ghost n1 = nodes@;
            let j = link(nodes, edges, b, pointer);
            proof {
                lemma_dedup_link(d, nb, n1, a);
                lemma_dedup_link(d.push(a), n1, nodes@, b);
                assert(d + ch =~= d.push(a).push(b));
                assert(ids(nodes@) == dedup(d + ch));
                assert forall|k: int| n0.len() <= k < nodes@.len() implies ch.contains(
                    #[trigger] nodes@[k].id,
                ) by {
                    if k < n1.len() {
                        assert(nodes@[k] == n1[k]);
                        assert(n1[k].id == a);
                        assert(ch[0] == a);
                    } else {
                        assert(nodes@[k].id == b);
                        assert(ch[1] == b);
                    }
                }
                assert forall|t: int| 0 <= t < ch.len() implies exists|k: int|
                    0 <= k < nodes@.len() && nodes@[k].id == #[trigger] ch[t] by {
                    if t == 0 {
                        assert(nodes@[i as int].id == ch[t]);
                    } else {
                        assert(nodes@[j as int].id == ch[t]);
                    }
                }
                assert(nodes@[i as int] == n1[i as int]);
                lemma_pos(nodes@, i as int);
                lemma_pos(nodes@, j as int);
                assert(g.edges_of(nodes@, pointer as int) =~= seq![(i, pointer), (j, pointer)]);
                assert(edges@ =~= e0 + g.edges_of(nodes@, pointer as int));
            }
        },
    }
    proof {
        assert(n0 =~= nodes@.take(n0.len() as int));
    }
}

/// Every operand of every node before position `p` in `nodes` is listed.
pub open spec fn closed_upto<V>(g: &Graph<V>, nodes: Seq<Scalar>, p: int) -> bool {
    forall|q: int, j: int|
        0 <= q < p && 0 <= j < g.children(nodes[q].id as int).len() ==> exists|i: int|
            0 <= i < nodes.len() && nodes[i].id == #[trigger] g.children(nodes[q].id as int)[j]
}

/// Lists the operands of the node at position `pointer`, and their edges.
#[verifier::rlimit(100)]
fn visit<V>(
    g: &Graph<V>,
    nodes: &mut Vec<Scalar>,
    edges: &mut Vec<(usize, usize)>,
    pointer: usize,
    rt: Ghost<int>,
)
    requires
        g.wf(),
        0 <= rt@ < g.len(),
        distinct(old(nodes)@),
        pointer < old(nodes)@.len(),
        forall|a: int|
            #![trigger old(nodes)@[a]]
            0 <= a < old(nodes)@.len() ==> old(nodes)@[a].valid(g) && g.reached(
                rt@,
                old(nodes)@[a].id as int,
            ),
        closed_upto(g, old(nodes)@, pointer as int),
        old(edges)@ == g.edges_upto(old(nodes)@, pointer as nat),
        ids(old(nodes)@) == dedup(seq![old(nodes)@[0].id] + g.kid_stream(old(nodes)@, pointer as nat)),
    ensures
        distinct(final(nodes)@),
        old(nodes)@.len() <= final(nodes)@.len() <= g.len(),
        old(nodes)@ == final(nodes)@.take(old(nodes)@.len() as int),
        forall|a: int|
            #![trigger final(nodes)@[a]]
            0 <= a < final(nodes)@.len() ==> final(nodes)@[a].valid(g) && g.reached(
                rt@,
                final(nodes)@[a].id as int,
            ),
        closed_upto(g, final(nodes)@, pointer + 1),
        final(edges)@ == g.edges_upto(final(nodes)@, (pointer + 1) as nat),
        ids(final(nodes)@) == dedup(
            seq![final(nodes)@[0].id] + g.kid_stream(final(nodes)@, (pointer + 1) as nat),
        ),
{
    let ghost rt = rt@;
    let ghost n0 = nodes@;
    let p = nodes[pointer].id;
    assert(nodes@[pointer as int].valid(g));
    let ghost d = seq![n0[0].id] + g.kid_stream(n0, pointer as nat);
    link_kids(g, nodes, edges, pointer, p, Ghost(d));
    proof {
        assert(n0 =~= nodes@.take(n0.len() as int));
        g.lemma_trace_step(rt, n0, nodes@, pointer as int);
        g.lemma_edges_grow(n0, nodes@, pointer as nat);
        g.lemma_order_step(n0, nodes@, pointer as nat);
        assert(g.edges_upto(nodes@, (pointer + 1) as nat) == g.edges_upto(
            nodes@,
            pointer as nat,
        ) + g.edges_of(nodes@, pointer as int));
        assert(edges@ =~= g.edges_upto(nodes@, (pointer + 1) as nat));
    }
}

impl Scalar {
    /// The subgraph below `self` as a node list and an edge list, for
    /// display.
    ///
    /// Nodes are listed breadth-first from `self`, each once: an operand
    /// joins the list the first time it is met. For every listed node, in
    /// list order, there is one edge per operand, left operand first, from
    /// the operand's position to the node's position; an operand used twice
    /// (as in `a + a`) gives two equal edges.
    #[verifier::rlimit(60)]
    pub fn trace<V>(&self, g: &Graph<V>) -> (r: (Vec<Scalar>, Vec<(usize, usize)>))
        requires
            g.wf(),
            self.valid(g),
        ensures
            r.0@.len() > 0,
            r.0@[0] == *self,
            distinct(r.0@),
            forall|a: int| 0 <= a < r.0@.len() ==> #[trigger] r.0@[a].valid(g),
            forall|k: int|
                0 <= k < g.len() ==> (g.reached(self.id as int, k) <==> exists|a: int|
                    0 <= a < r.0@.len() && #[trigger] r.0@[a].id == k),
            ids(r.0@) == dedup(seq![self.id] + g.kid_stream(r.0@, r.0@.len())),
            r.1@ == g.edges_upto(r.0@, r.0@.len()),
    {
        let ghost rt = self.id as int;
        let len = g.op.len();
        let mut nodes: Vec<Scalar> = Vec::new();
        nodes.push(*self);
        let mut edges: Vec<(usize, usize)> = Vec::new();
        let mut pointer: usize = 0;
        proof {
            g.lemma_reached_root(rt);
            assert(edges@ =~= g.edges_upto(nodes@, 0));
            assert(seq![nodes@[0].id] + g.kid_stream(nodes@, 0) =~= seq![self.id]);
            assert(seq![self.id].drop_last() =~= Seq::<usize>::empty());
            reveal(ids);
            reveal_with_fuel(dedup, 2);
            assert(ids(nodes@) =~= seq![self.id]);
        }
        while pointer < nodes.len()
            invariant
                g.wf(),
                g.len() == len,
                rt == self.id,
                self.valid(g),
                nodes@.len() >= 1,
                nodes@.len() <= len,
                nodes@[0] == *self,
                distinct(nodes@),
                pointer <= nodes@.len(),
                forall|a: int|
                    #![trigger nodes@[a]]
                0 <= a < nodes@.len() ==> nodes@[a].valid(g) && g.reached(
                        rt,
                        nodes@[a].id as int,
                    ),
                closed_upto(g, nodes@, pointer as int),
                edges@ == g.edges_upto(nodes@, pointer as nat),
                ids(nodes@) == dedup(seq![nodes@[0].id] + g.kid_stream(nodes@, pointer as nat)),
            decreases 3 * (len - nodes@.len()) + (nodes@.len() - pointer),
        {
            visit(g, &mut nodes, &mut edges, pointer, Ghost(rt));
            pointer += 1;
        }
        proof {
            assert forall|k: int| 0 <= k < g.len() implies (g.reached(rt, k) <==> exists|a: int|
                0 <= a < nodes@.len() && #[trigger] nodes@[a].id == k) by {
                if g.reached(rt, k) {
                    let i = g.lemma_closed_covers(nodes@, rt, k);
                    assert(nodes@[i].id == k);
                }
                if exists|a: int| 0 <= a < nodes@.len() && #[trigger] nodes@[a].id == k {
                    let a = choose|a: int| 0 <= a < nodes@.len() && #[trigger] nodes@[a].id == k;
                    assert(nodes@[a].valid(g) && g.reached(rt, nodes@[a].id as int));
                }
            }
            assert(rt == self.id as int);
        }
        proof {
            assert(nodes@[0].id == self.id);
        }
        let r = (nodes, edges);
        assert(r.0@ == nodes@);
        r
    }
}

impl Scalar {
    /// Every node reachable from `self`, each once, breadth-first: `self`,
    /// then the operands of the listed nodes in list order, left operand
    /// first, each node where it is first met. This is the node list of
    /// `trace`.
    pub fn traverse<V>(&self, g: &Graph<V>) -> (r: Vec<Scalar>)
        requires
            g.wf(),
            self.valid(g),
        ensures
            r@.len() > 0,
            r@[0] == *self,
            distinct(r@),
            forall|a: int| 0 <= a < r@.len() ==> #[trigger] r@[a].valid(g),
            forall|k: int|
                0 <= k < g.len() ==> (g.reached(self.id as int, k) <==> exists|a: int|
                    0 <= a < r@.len() && #[trigger] r@[a].id == k),
            ids(r@) == dedup(seq![self.id] + g.kid_stream(r@, r@.len())),
    {
        let (nodes, _edges) = self.trace(g);
        nodes
    }
}

} // verus!
