use vstd::prelude::*;
use crate::tensor::{DType, Dimension, Error, copy_shape};

verus! {

/// The link from a value to the node that produces it: the node's handle and
/// the output slot that the value fills.
#[derive(Clone, Copy, Debug, PartialEq, Eq, Structural)]
pub struct MultiOutputNodeOutput {
    pub node: usize,
    pub output_index: usize,
}

impl MultiOutputNodeOutput {
    pub fn new(node: usize, output_index: usize) -> (r: Self)
        ensures
            r.node == node,
            r.output_index == output_index,
    {
        MultiOutputNodeOutput { node, output_index }
    }
}

/// A typed attribute value of a node. A float attribute is held as the bit
/// pattern of its IEEE-754 single-precision value.
#[derive(Clone, Debug, PartialEq, Eq)]
pub enum AttributeValue {
    Int(i64),
    Ints(Vec<i64>),
    FloatBits(u32),
}

/// The two attribute values are the same.
pub open spec fn same_attribute_value(a: AttributeValue, b: AttributeValue) -> bool {
    match (a, b) {
        (AttributeValue::Int(x), AttributeValue::Int(y)) => x == y,
        (AttributeValue::Ints(x), AttributeValue::Ints(y)) => x@ == y@,
        (AttributeValue::FloatBits(x), AttributeValue::FloatBits(y)) => x == y,
        _ => false,
    }
}

/// The two attributes are the same.
pub open spec fn same_attribute(a: Attribute, b: Attribute) -> bool {
    a.name@ == b.name@ && same_attribute_value(a.value, b.value)
}

/// A named attribute of a node.
#[derive(Clone, Debug, PartialEq, Eq)]
pub struct Attribute {
    pub name: String,
    pub value: AttributeValue,
}

impl Attribute {
    /// An attribute equal to this one.
    pub fn copy(&self) -> (r: Attribute)
        ensures
            same_attribute(r, *self),
    {
        let value = match &self.value {
            AttributeValue::Int(x) => AttributeValue::Int(*x),
            AttributeValue::Ints(xs) => {
                let mut ys: Vec<i64> = Vec::new();
                let mut i: usize = 0;
                while i < xs.len()
                    invariant
                        i <= xs@.len(),
                        ys@ == xs@.subrange(0, i as int),
                    decreases xs@.len() - i,
                {
                    ys.push(xs[i]);
                    i = i + 1;
                    assert(ys@ =~= xs@.subrange(0, i as int));
                }
                assert(ys@ =~= xs@);
                AttributeValue::Ints(ys)
            },
            AttributeValue::FloatBits(b) => AttributeValue::FloatBits(*b),
        };
        Attribute { name: self.name.clone(), value }
    }
}

/// Copies of a list of attributes.
pub fn copy_attributes(a: &Vec<Attribute>) -> (r: Vec<Attribute>)
    ensures
        r@.len() == a@.len(),
        forall|i: int| 0 <= i < a@.len() ==> same_attribute(#[trigger] r@[i], a@[i]),
{
    let mut r: Vec<Attribute> = Vec::new();
    let mut i: usize = 0;
    while i < a.len()
        invariant
            i <= a@.len(),
            r@.len() == i,
            forall|j: int| 0 <= j < i ==> same_attribute(#[trigger] r@[j], a@[j]),
        decreases a@.len() - i,
    {
        r.push(a[i].copy());
        i = i + 1;
    }
    r
}

/// A tensor-shaped value of the graph. Its identity is its handle in the
/// graph, never its contents.
#[derive(Debug)]
pub struct Value {
    pub dtype: DType,
    pub shape: Vec<Dimension>,
    pub name: Option<String>,
    pub producer: Option<MultiOutputNodeOutput>,
    pub data: Option<Vec<u8>>,
}

/// One computation step: it reads its input values and fills its output
/// values, in order.
#[derive(Debug)]
pub struct Node {
    pub op_type: String,
    pub domain: String,
    pub name: Option<String>,
    pub inputs: Vec<usize>,
    pub outputs: Vec<usize>,
    pub attributes: Vec<Attribute>,
}

/// Arena of values and nodes; handles index into it. A node can only read
/// values that existed before it, so the graph is acyclic by construction.
#[derive(Debug)]
pub struct Graph {
    pub(crate) values: Vec<Value>,
    pub(crate) nodes: Vec<Node>,
}

/// `v` is output `k` of node `n`, typed as `t`, unnamed and without data.
pub open spec fn output_value(v: Value, t: (DType, Vec<Dimension>), n: usize, k: usize) -> bool {
    &&& v.dtype == t.0
    &&& v.shape@ == t.1@
    &&& v.name is None
    &&& v.producer == Some(MultiOutputNodeOutput { node: n, output_index: k })
    &&& v.data is None
}

impl Graph {
    /// The values of the arena, by handle.
    pub open(crate) spec fn vals(&self) -> Seq<Value> {
        self.values@
    }

    /// The nodes of the arena, by handle.
    pub open(crate) spec fn nds(&self) -> Seq<Node> {
        self.nodes@
    }

    pub open(crate) spec fn num_values(&self) -> nat {
        self.values@.len()
    }

    pub open(crate) spec fn num_nodes(&self) -> nat {
        self.nodes@.len()
    }

    /// The producer link of value `v`, where it points back correctly.
    pub open(crate) spec fn producer_ok(&self, v: int) -> bool {
        match self.values@[v].producer {
            Some(p) => p.node < self.nodes@.len() && p.output_index < self.nodes@[p.node as int].outputs@.len()
                && self.nodes@[p.node as int].outputs@[p.output_index as int] == v,
            None => true,
        }
    }

    /// Node `n`'s inputs precede each of its outputs, and its outputs point back to it.
    pub open(crate) spec fn node_ok(&self, n: int) -> bool {
        let node = self.nodes@[n];
        &&& forall|i: int| 0 <= i < node.inputs@.len() ==> (#[trigger] node.inputs@[i]) < self.values@.len()
        &&& forall|k: int| #![trigger node.outputs@[k]] 0 <= k < node.outputs@.len() ==> {
            &&& node.outputs@[k] < self.values@.len()
            &&& self.values@[node.outputs@[k] as int].producer == Some(MultiOutputNodeOutput { node: n as usize, output_index: k as usize })
            &&& forall|i: int| 0 <= i < node.inputs@.len() ==> (#[trigger] node.inputs@[i]) < node.outputs@[k]
        }
    }

    pub open(crate) spec fn wf(&self) -> bool {
        &&& forall|v: int| 0 <= v < self.values@.len() ==> #[trigger] self.producer_ok(v)
        &&& forall|n: int| 0 <= n < self.nodes@.len() ==> #[trigger] self.node_ok(n)
    }

    /// `w` is an input of the node that produces `v`.
    pub open(crate) spec fn feeds(&self, v: usize, w: usize) -> bool {
        &&& v < self.values@.len()
        &&& self.values@[v as int].producer is Some
        &&& self.nodes@[self.values@[v as int].producer->Some_0.node as int].inputs@.contains(w)
    }

    pub fn new() -> (r: Self)
        ensures
            r.wf(),
            r.num_values() == 0,
            r.num_nodes() == 0,
    {
        Graph { values: Vec::new(), nodes: Vec::new() }
    }

    /// Number of values in the arena; handles run below it.
    pub fn value_count(&self) -> (r: usize)
        ensures
            r == self.num_values(),
    {
        self.values.len()
    }

    /// The value with handle `v`.
    pub fn value(&self, v: usize) -> (r: &Value)
        requires
            v < self.num_values(),
        ensures
            *r == self.vals()[v as int],
    {
        &self.values[v]
    }

    /// The node with handle `n`.
    pub fn node(&self, n: usize) -> (r: &Node)
        requires
            n < self.num_nodes(),
        ensures
            *r == self.nds()[n as int],
    {
        &self.nodes[n]
    }

    /// Number of nodes in the arena.
    pub fn node_count(&self) -> (r: usize)
        ensures
            r == self.num_nodes(),
    {
        self.nodes.len()
    }

    /// Adds a graph input: a named value with no producer and no data.
    pub fn add_input(&mut self, name: String, dtype: DType, shape: Vec<Dimension>) -> (r: usize)
        requires
            old(self).wf(),
        ensures
            final(self).wf(),
            r == old(self).num_values(),
            final(self).vals() == old(self).vals().push(Value { dtype, shape, name: Some(name), producer: None, data: None }),
            final(self).nds() == old(self).nds(),
    {
        let r = self.values.len();
        self.values.push(Value { dtype, shape, name: Some(name), producer: None, data: None });
        proof { self.lemma_push_leaf(*old(self)); }
        r
    }

    /// Adds a constant: a value with no producer that holds its payload bytes.
    pub fn add_constant(&mut self, name: Option<String>, dtype: DType, shape: Vec<Dimension>, data: Vec<u8>) -> (r: usize)
        requires
            old(self).wf(),
        ensures
            final(self).wf(),
            r == old(self).num_values(),
            final(self).vals() == old(self).vals().push(Value { dtype, shape, name, producer: None, data: Some(data) }),
            final(self).nds() == old(self).nds(),
    {
        let r = self.values.len();
        self.values.push(Value { dtype, shape, name, producer: None, data: Some(data) });
        proof { self.lemma_push_leaf(*old(self)); }
        r
    }

    /// Adds a node reading `inputs`, with one new output value for each entry
    /// of `output_types`, and returns the output handles. Fails with
    /// `InvalidInputError` where an input handle names no value.
    pub fn add_node(
        &mut self,
        op_type: String,
        domain: String,
        name: Option<String>,
        inputs: Vec<usize>,
        attributes: Vec<Attribute>,
        output_types: &Vec<(DType, Vec<Dimension>)>,
    ) -> (r: Result<Vec<usize>, Error>)
        requires
            old(self).wf(),
        ensures
            final(self).wf(),
            (exists|i: int| 0 <= i < inputs@.len() && inputs@[i] >= old(self).num_values()) <==> r is Err,
            r is Err ==> r->Err_0 is InvalidInputError && *final(self) == *old(self),
            r is Ok ==> {
                let outs = r->Ok_0@;
                let n = old(self).num_nodes();
                &&& outs.len() == output_types@.len()
                &&& forall|k: int| 0 <= k < outs.len() ==> #[trigger] outs[k] == old(self).num_values() + k
                &&& final(self).nds().len() == n + 1
                &&& forall|m: int| 0 <= m < n ==> #[trigger] final(self).nds()[m] == old(self).nds()[m]
                &&& final(self).nds()[n as int] == (Node { op_type, domain, name, inputs, outputs: final(self).nds()[n as int].outputs, attributes })
                &&& final(self).nds()[n as int].outputs@ == outs
                &&& final(self).vals().len() == old(self).vals().len() + outs.len()
                &&& forall|v: int| 0 <= v < old(self).num_values() ==> #[trigger] final(self).vals()[v] == old(self).vals()[v]
                &&& forall|k: int| 0 <= k < outs.len() ==> output_value(#[trigger] final(self).vals()[outs[k] as int], output_types@[k], n as usize, k as usize)
            },
    {
        let mut i: usize = 0;
        while i < inputs.len()
            invariant
                i <= inputs@.len(),
                *self == *old(self),
                self.wf(),
                forall|j: int| 0 <= j < i ==> inputs@[j] < self.values@.len(),
            decreases inputs@.len() - i,
        {
            if inputs[i] >= self.values.len() {
                assert(inputs@[i as int] >= self.values@.len());
                return Err(Error::InvalidInputError);
            }
            i = i + 1;
        }
        let ghost prev = *self;
        let n = self.nodes.len();
        let base = self.values.len();
        let mut outs: Vec<usize> = Vec::new();
        let mut ret: Vec<usize> = Vec::new();
        let mut k: usize = 0;
        while k < output_types.len()
            invariant
                prev.wf(),
                n == prev.nodes@.len(),
                base == prev.values@.len(),
                self.nodes@ == prev.nodes@,
                k <= output_types@.len(),
                outs@.len() == k,
                ret@ == outs@,
                self.values@.len() == base + k,
                forall|j: int| 0 <= j < k ==> #[trigger] outs@[j] == base + j,
                forall|v: int| 0 <= v < base ==> #[trigger] self.values@[v] == prev.values@[v],
                forall|j: int| 0 <= j < k ==> output_value(#[trigger] self.values@[base + j], output_types@[j], n, j as usize),
            decreases output_types@.len() - k,
        {
            let v = self.values.len();
            let shape = copy_shape(&output_types[k].1);
            self.values.push(Value {
                dtype: output_types[k].0,
                shape,
                name: None,
                producer: Some(MultiOutputNodeOutput::new(n, k)),
                data: None,
            });
            outs.push(v);
            ret.push(v);
            proof {
                assert(self.values@[base + k as int] == self.values@[v as int]);
            }
            k = k + 1;
        }
        let ghost outs_v = outs@;
        self.nodes.push(Node { op_type, domain, name, inputs, outputs: outs, attributes });
        proof {
            assert forall|v: int| 0 <= v < self.values@.len() implies #[trigger] self.producer_ok(v) by {
                if v < base {
                    assert(prev.producer_ok(v));
                } else {
                    assert(self.values@[base + (v - base)] == self.values@[v]);
                    assert(outs_v[v - base] == v);
                }
            }
            assert forall|m: int| 0 <= m < self.nodes@.len() implies #[trigger] self.node_ok(m) by {
                if m < n {
                    assert(prev.node_ok(m));
                    let node = self.nodes@[m];
                    assert forall|q: int| #![trigger node.outputs@[q]] 0 <= q < node.outputs@.len() implies
                        self.values@[node.outputs@[q] as int].producer == Some(MultiOutputNodeOutput { node: m as usize, output_index: q as usize }) by {
                        assert(prev.values@[node.outputs@[q] as int] == self.values@[node.outputs@[q] as int]);
                    }
                } else {
                    let node = self.nodes@[m];
                    assert forall|q: int| #![trigger node.outputs@[q]] 0 <= q < node.outputs@.len() implies
                        self.values@[node.outputs@[q] as int].producer == Some(MultiOutputNodeOutput { node: m as usize, output_index: q as usize }) by {
                        assert(self.values@[base + q] == self.values@[node.outputs@[q] as int]);
                    }
                }
            }
        }
        proof {
            assert forall|q: int| 0 <= q < outs_v.len() implies
                output_value(#[trigger] self.values@[outs_v[q] as int], output_types@[q], n, q as usize) by {
                assert(self.values@[base + q] == self.values@[outs_v[q] as int]);
            }
        }
        Ok(ret)
    }

    proof fn lemma_push_leaf(&self, prev: Graph)
        requires
            prev.wf(),
            self.nodes@ == prev.nodes@,
            self.values@.len() == prev.values@.len() + 1,
            forall|v: int| 0 <= v < prev.values@.len() ==> self.values@[v] == prev.values@[v],
            self.values@.last().producer is None,
        ensures
            self.wf(),
    {
        assert forall|v: int| 0 <= v < self.values@.len() implies #[trigger] self.producer_ok(v) by {
            if v < prev.values@.len() {
                assert(prev.producer_ok(v));
            }
        }
        assert forall|n: int| 0 <= n < self.nodes@.len() implies #[trigger] self.node_ok(n) by {
            assert(prev.node_ok(n));
            let node = self.nodes@[n];
            assert forall|k: int| #![trigger node.outputs@[k]] 0 <= k < node.outputs@.len() implies
                self.values@[node.outputs@[k] as int].producer == Some(MultiOutputNodeOutput { node: n as usize, output_index: k as usize }) by {
                assert(prev.values@[node.outputs@[k] as int] == self.values@[node.outputs@[k] as int]);
            }
        }
    }
}

} // verus!
