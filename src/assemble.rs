use vstd::prelude::*;
use crate::graph::{Attribute, Graph, Node, Value, copy_attributes, same_attribute};
use crate::naming::opt_view;
use crate::tensor::{DType, Dimension, Error, copy_shape, known_dims, resolve_dims};
use crate::weights::{InitializerData, WeightOutputManager, WeightStorageStrategy, fresh_manager};

verus! {

/// A typed, named value of the descriptor.
#[derive(Debug)]
pub struct ValueInfo {
    pub name: String,
    pub dtype: DType,
    pub shape: Vec<Dimension>,
}

/// A constant of the descriptor and where its payload is.
#[derive(Debug)]
pub struct Initializer {
    pub name: String,
    pub dtype: DType,
    pub dims: Vec<u64>,
    pub data: InitializerData,
}

/// A node of the descriptor; values are referred to by name.
#[derive(Debug)]
pub struct NodeProto {
    pub name: String,
    pub op_type: String,
    pub domain: String,
    pub inputs: Vec<String>,
    pub outputs: Vec<String>,
    pub attributes: Vec<Attribute>,
}

/// The graph section of the descriptor.
#[derive(Debug)]
pub struct GraphProto {
    pub nodes: Vec<NodeProto>,
    pub initializers: Vec<Initializer>,
    pub inputs: Vec<ValueInfo>,
    pub outputs: Vec<ValueInfo>,
    pub value_infos: Vec<ValueInfo>,
}

/// The model descriptor, and the contents of the external weight file (empty
/// unless that strategy was chosen).
#[derive(Debug)]
pub struct ModelProto {
    pub ir_version: i64,
    pub producer_name: String,
    pub graph: GraphProto,
    pub weight_file: Vec<u8>,
}

/// Version of the interchange format's intermediate representation.
pub const IR_VERSION: i64 = 10;

/// The producer recorded in every descriptor.
pub const PRODUCER: &'static str = "onnx-graph";

/// The handles of the declared outputs.
pub open spec fn out_handles(outs: Seq<(String, usize)>) -> Seq<usize> {
    outs.map_values(|o: (String, usize)| o.1)
}

/// `e` describes value `v` under `name`.
pub open spec fn info_of(e: ValueInfo, v: Value, name: Seq<char>) -> bool {
    e.name@ == name && e.dtype == v.dtype && e.shape@ == v.shape@
}

/// The name of a value in a name table, where it has one.
pub open spec fn table_name(tbl: Seq<Option<String>>, v: usize) -> Seq<char> {
    tbl[v as int]->Some_0@
}

/// The payloads of the constants `cs`, one after another.
pub open spec fn payloads(g: Graph, cs: Seq<usize>) -> Seq<u8>
    decreases cs.len(),
{
    if cs.len() == 0 {
        Seq::empty()
    } else {
        payloads(g, cs.drop_last()) + g.vals()[cs.last() as int].data->Some_0@
    }
}

/// The payload representation `d` that state `m0` gives a payload when
/// `prior` was gathered before it.
pub open spec fn placed(m0: WeightOutputManager, prior: Seq<u8>, payload: Seq<u8>, d: InitializerData) -> bool {
    match m0 {
        WeightOutputManager::Null => d is Discarded,
        WeightOutputManager::Bin { location, blob } => {
            &&& d is External
            &&& d->External_location@ == location@
            &&& d->External_offset == blob@.len() + prior.len()
            &&& d->External_length == payload.len()
        },
        WeightOutputManager::Embedded => d is Raw && d->Raw_0@ == payload,
    }
}

/// State `m1` follows `m0` once `all` is gathered.
pub open spec fn sink_after(m0: WeightOutputManager, all: Seq<u8>, m1: WeightOutputManager) -> bool {
    match m0 {
        WeightOutputManager::Null => m1 is Null,
        WeightOutputManager::Bin { location, blob } => m1 is Bin && m1->Bin_location@ == location@ && m1->Bin_blob@ == blob@ + all,
        WeightOutputManager::Embedded => m1 is Embedded,
    }
}

impl Graph {
    /// Value `v` is a declared input or a declared output.
    pub open(crate) spec fn declared(&self, inputs: Seq<usize>, outs: Seq<(String, usize)>, v: usize) -> bool {
        inputs.contains(v) || out_handles(outs).contains(v)
    }

    /// Value `v` holds a payload.
    pub open(crate) spec fn has_data(&self, v: usize) -> bool {
        self.vals()[v as int].data is Some
    }

    /// `e` is the descriptor entry of node `nd`, with value names from `tbl`;
    /// an output outside `reached` is left unnamed.
    pub open(crate) spec fn node_entry(&self, e: NodeProto, nd: Node, tbl: Seq<Option<String>>, reached: Set<usize>) -> bool {
        &&& e.name@ == (match opt_view(nd.name) { Some(x) => x, None => Seq::empty() })
        &&& e.op_type@ == nd.op_type@
        &&& e.domain@ == nd.domain@
        &&& e.inputs@.len() == nd.inputs@.len()
        &&& forall|j: int| 0 <= j < nd.inputs@.len() ==> (#[trigger] e.inputs@[j])@ == table_name(tbl, nd.inputs@[j])
        &&& e.outputs@.len() == nd.outputs@.len()
        &&& forall|j: int| 0 <= j < nd.outputs@.len() ==> (#[trigger] e.outputs@[j])@ == (if reached.contains(nd.outputs@[j]) {
            table_name(tbl, nd.outputs@[j])
        } else {
            Seq::empty()
        })
        &&& e.attributes@.len() == nd.attributes@.len()
        &&& forall|j: int| 0 <= j < nd.attributes@.len() ==> same_attribute(#[trigger] e.attributes@[j], nd.attributes@[j])
    }

    /// `e` is the initializer entry of constant `v`, named `name`, whose
    /// payload follows the payloads `prior` in state `m0`.
    pub open(crate) spec fn initializer_entry(&self, e: Initializer, v: usize, name: Seq<char>, m0: WeightOutputManager, prior: Seq<u8>) -> bool {
        &&& e.name@ == name
        &&& e.dtype == self.vals()[v as int].dtype
        &&& known_dims(self.vals()[v as int].shape@) == Some(e.dims@)
        &&& placed(m0, prior, self.vals()[v as int].data->Some_0@, e.data)
    }
}

/// Whether `list` holds `v`.
fn holds_handle(list: &Vec<usize>, v: usize) -> (r: bool)
    ensures
        r == list@.contains(v),
{
    let mut i: usize = 0;
    while i < list.len()
        invariant
            i <= list@.len(),
            forall|j: int| 0 <= j < i ==> list@[j] != v,
        decreases list@.len() - i,
    {
        if list[i] == v {
            return true;
        }
        i = i + 1;
    }
    false
}

/// Whether one of the declared outputs is value `v`.
fn is_output(outs: &Vec<(String, usize)>, v: usize) -> (r: bool)
    ensures
        r == out_handles(outs@).contains(v),
{
    let mut i: usize = 0;
    while i < outs.len()
        invariant
            i <= outs@.len(),
            forall|j: int| 0 <= j < i ==> outs@[j].1 != v,
        decreases outs@.len() - i,
    {
        if outs[i].1 == v {
            assert(out_handles(outs@)[i as int] == v);
            return true;
        }
        i = i + 1;
    }
    false
}

/// The name of `v` in the table.
fn name_in(tbl: &Vec<Option<String>>, v: usize) -> (r: String)
    requires
        v < tbl@.len(),
        tbl@[v as int] is Some,
    ensures
        r@ == table_name(tbl@, v),
{
    match &tbl[v] {
        Some(x) => x.clone(),
        None => String::new(),
    }
}

impl Graph {
    fn value_info(&self, v: usize, name: String) -> (r: ValueInfo)
        requires
            v < self.num_values(),
        ensures
            info_of(r, self.vals()[v as int], name@),
    {
        ValueInfo { name, dtype: self.values[v].dtype, shape: copy_shape(&self.values[v].shape) }
    }

    /// Entries for the declared inputs, named from the table.
    fn input_infos(&self, inputs: &Vec<usize>, tbl: &Vec<Option<String>>) -> (r: Vec<ValueInfo>)
        requires
            forall|i: int| 0 <= i < inputs@.len() ==> #[trigger] inputs@[i] < self.num_values() && inputs@[i] < tbl@.len()
                && tbl@[inputs@[i] as int] is Some,
        ensures
            r@.len() == inputs@.len(),
            forall|i: int| 0 <= i < inputs@.len() ==> info_of(#[trigger] r@[i], self.vals()[inputs@[i] as int], table_name(tbl@, inputs@[i])),
    {
        let mut r: Vec<ValueInfo> = Vec::new();
        let mut i: usize = 0;
        while i < inputs.len()
            invariant
                forall|q: int| 0 <= q < inputs@.len() ==> #[trigger] inputs@[q] < self.num_values() && inputs@[q] < tbl@.len()
                    && tbl@[inputs@[q] as int] is Some,
                i <= inputs@.len(),
                r@.len() == i,
                forall|q: int| 0 <= q < i ==> info_of(#[trigger] r@[q], self.vals()[inputs@[q] as int], table_name(tbl@, inputs@[q])),
            decreases inputs@.len() - i,
        {
            let v = inputs[i];
            r.push(self.value_info(v, name_in(tbl, v)));
            i = i + 1;
        }
        r
    }

    /// Entries for the declared outputs, under the names the caller gave.
    fn output_infos(&self, outputs: &Vec<(String, usize)>) -> (r: Vec<ValueInfo>)
        requires
            forall|i: int| 0 <= i < outputs@.len() ==> #[trigger] outputs@[i].1 < self.num_values(),
        ensures
            r@.len() == outputs@.len(),
            forall|i: int| 0 <= i < outputs@.len() ==> info_of(#[trigger] r@[i], self.vals()[outputs@[i].1 as int], outputs@[i].0@),
    {
        let mut r: Vec<ValueInfo> = Vec::new();
        let mut i: usize = 0;
        while i < outputs.len()
            invariant
                forall|q: int| 0 <= q < outputs@.len() ==> #[trigger] outputs@[q].1 < self.num_values(),
                i <= outputs@.len(),
                r@.len() == i,
                forall|q: int| 0 <= q < i ==> info_of(#[trigger] r@[q], self.vals()[outputs@[q].1 as int], outputs@[q].0@),
            decreases outputs@.len() - i,
        {
            r.push(self.value_info(outputs[i].1, outputs[i].0.clone()));
            i = i + 1;
        }
        r
    }

    /// Entries for the values of `order` that are neither declared inputs nor
    /// declared outputs, in the order of `order`.
    fn intermediate_infos(&self, order: &Vec<usize>, inputs: &Vec<usize>, outputs: &Vec<(String, usize)>, tbl: &Vec<Option<String>>) -> (r: Vec<ValueInfo>)
        requires
            forall|i: int| 0 <= i < order@.len() ==> #[trigger] order@[i] < self.num_values() && order@[i] < tbl@.len()
                && tbl@[order@[i] as int] is Some,
        ensures
            ({
                let f = order@.filter(|v: usize| !self.declared(inputs@, outputs@, v));
                &&& r@.len() == f.len()
                &&& forall|k: int| 0 <= k < f.len() ==> info_of(#[trigger] r@[k], self.vals()[f[k] as int], table_name(tbl@, f[k]))
            }),
    {
        let ghost pred = |v: usize| !self.declared(inputs@, outputs@, v);
        let mut r: Vec<ValueInfo> = Vec::new();
        let mut i: usize = 0;
        while i < order.len()
            invariant
                forall|q: int| 0 <= q < order@.len() ==> #[trigger] order@[q] < self.num_values() && order@[q] < tbl@.len()
                    && tbl@[order@[q] as int] is Some,
                pred == (|v: usize| !self.declared(inputs@, outputs@, v)),
                i <= order@.len(),
                r@.len() == order@.subrange(0, i as int).filter(pred).len(),
                forall|k: int| 0 <= k < r@.len() ==> info_of(#[trigger] r@[k], self.vals()[order@.subrange(0, i as int).filter(pred)[k] as int],
                    table_name(tbl@, order@.subrange(0, i as int).filter(pred)[k])),
            decreases order@.len() - i,
        {
            let v = order[i];
            let ghost pre = order@.subrange(0, i as int);
            let ghost post = order@.subrange(0, i + 1);
            proof {
                assert(post.drop_last() =~= pre);
                assert(post.last() == v);
                reveal(Seq::filter);
            }
            if !holds_handle(inputs, v) && !is_output(outputs, v) {
                r.push(self.value_info(v, name_in(tbl, v)));
                proof {
                    assert(post.filter(pred) == pre.filter(pred).push(v));
                }
            } else {
                proof {
                    assert(post.filter(pred) == pre.filter(pred));
                }
            }
            i = i + 1;
        }
        proof {
            assert(order@.subrange(0, order@.len() as int) =~= order@);
        }
        r
    }

    /// Initializer entries for the values of `order` that hold a payload, in
    /// the order of `order`, each payload gathered into `sink`. Fails with
    /// `UnresolvedDimensionError` where such a value has a dimension that is
    /// not known.
    fn initializers(&self, order: &Vec<usize>, tbl: &Vec<Option<String>>, sink: &mut WeightOutputManager) -> (r: Result<Vec<Initializer>, Error>)
        requires
            forall|i: int| 0 <= i < order@.len() ==> #[trigger] order@[i] < self.num_values() && order@[i] < tbl@.len()
                && tbl@[order@[i] as int] is Some,
        ensures
            r is Err <==> exists|i: int| 0 <= i < order@.len() && self.has_data(#[trigger] order@[i])
                && known_dims(self.vals()[order@[i] as int].shape@) is None,
            r is Err ==> r->Err_0 is UnresolvedDimensionError,
            r is Ok ==> ({
                let c = order@.filter(|v: usize| self.has_data(v));
                &&& r->Ok_0@.len() == c.len()
                &&& forall|k: int| 0 <= k < c.len() ==> self.initializer_entry(#[trigger] r->Ok_0@[k], c[k], table_name(tbl@, c[k]),
                    *old(sink), payloads(*self, c.subrange(0, k)))
                &&& sink_after(*old(sink), payloads(*self, c), *final(sink))
            }),
    {
        let ghost pred = |v: usize| self.has_data(v);
        let ghost m0 = *sink;
        let mut r: Vec<Initializer> = Vec::new();
        let mut i: usize = 0;
        proof {
            reveal(Seq::filter);
            assert(order@.subrange(0, 0).filter(pred) =~= Seq::<usize>::empty());
            assert(m0 matches WeightOutputManager::Bin { .. } ==> m0->Bin_blob@ + Seq::<u8>::empty() =~= m0->Bin_blob@);
        }
        while i < order.len()
            invariant
                forall|q: int| 0 <= q < order@.len() ==> #[trigger] order@[q] < self.num_values() && order@[q] < tbl@.len()
                    && tbl@[order@[q] as int] is Some,
                pred == (|v: usize| self.has_data(v)),
                i <= order@.len(),
                forall|q: int| 0 <= q < i && self.has_data(#[trigger] order@[q]) ==> known_dims(self.vals()[order@[q] as int].shape@) is Some,
                r@.len() == order@.subrange(0, i as int).filter(pred).len(),
                forall|k: int| 0 <= k < r@.len() ==> self.initializer_entry(#[trigger] r@[k], order@.subrange(0, i as int).filter(pred)[k],
                    table_name(tbl@, order@.subrange(0, i as int).filter(pred)[k]), m0,
                    payloads(*self, order@.subrange(0, i as int).filter(pred).subrange(0, k))),
                sink_after(m0, payloads(*self, order@.subrange(0, i as int).filter(pred)), *sink),
            decreases order@.len() - i,
        {
            let v = order[i];
            let ghost pre = order@.subrange(0, i as int);
            let ghost post = order@.subrange(0, i + 1);
            let ghost cpre = pre.filter(pred);
            proof {
                assert(post.drop_last() =~= pre);
                assert(post.last() == v);
                reveal(Seq::filter);
            }
            match &self.values[v].data {
                Some(d) => {
                    let dims = match resolve_dims(&self.values[v].shape) {
                        Ok(dims) => dims,
                        Err(e) => {
                            proof {
                                assert(self.has_data(order@[i as int]));
                            }
                            return Err(e);
                        },
                    };
                    let ghost cur = *sink;
                    let data = sink.gather(d);
                    r.push(Initializer { name: name_in(tbl, v), dtype: self.values[v].dtype, dims, data });
                    proof {
                        let cpost = post.filter(pred);
                        assert(cpost == cpre.push(v));
                        assert(cpost.drop_last() =~= cpre);
                        assert(payloads(*self, cpost) == payloads(*self, cpre) + d@);
                        assert(cpost.subrange(0, cpre.len() as int) =~= cpre);
                        assert forall|k: int| 0 <= k < cpre.len() implies cpost.subrange(0, k) =~= cpre.subrange(0, k) by {}
                        assert forall|k: int| 0 <= k < r@.len() implies self.initializer_entry(#[trigger] r@[k], cpost[k],
                            table_name(tbl@, cpost[k]), m0, payloads(*self, cpost.subrange(0, k))) by {
                            if k < cpre.len() {
                                assert(cpost.subrange(0, k) =~= cpre.subrange(0, k));
                            }
                        }
                        match m0 {
                            WeightOutputManager::Bin { location, blob } => {
                                assert(blob@ + payloads(*self, cpre) + d@ =~= blob@ + (payloads(*self, cpre) + d@));
                            },
                            _ => {},
                        }
                    }
                },
                None => {
                    proof {
                        assert(post.filter(pred) == cpre);
                    }
                },
            }
            i = i + 1;
        }
        proof {
            assert(order@.subrange(0, order@.len() as int) =~= order@);
        }
        Ok(r)
    }

    /// Descriptor entries for the nodes `hs`, in that order.
    fn node_entries(&self, hs: &Vec<usize>, tbl: &Vec<Option<String>>, in_r: &Vec<bool>, Ghost(reached): Ghost<Set<usize>>) -> (r: Vec<NodeProto>)
        requires
            self.wf(),
            tbl@.len() == self.num_values(),
            in_r@.len() == self.num_values(),
            forall|x: usize| x < self.num_values() ==> (#[trigger] in_r@[x as int] <==> reached.contains(x)),
            forall|x: usize| #[trigger] reached.contains(x) ==> x < self.num_values() && tbl@[x as int] is Some,
            forall|k: int| 0 <= k < hs@.len() ==> #[trigger] hs@[k] < self.num_nodes(),
            forall|k: int, j: int| 0 <= k < hs@.len() && 0 <= j < self.nds()[hs@[k] as int].inputs@.len() ==>
                reached.contains(#[trigger] self.nds()[hs@[k] as int].inputs@[j]),
        ensures
            r@.len() == hs@.len(),
            forall|k: int| 0 <= k < hs@.len() ==> self.node_entry(#[trigger] r@[k], self.nds()[hs@[k] as int], tbl@, reached),
    {
        let mut r: Vec<NodeProto> = Vec::new();
        let mut k: usize = 0;
        while k < hs.len()
            invariant
                self.wf(),
                tbl@.len() == self.num_values(),
                in_r@.len() == self.num_values(),
                forall|x: usize| x < self.num_values() ==> (#[trigger] in_r@[x as int] <==> reached.contains(x)),
                forall|x: usize| #[trigger] reached.contains(x) ==> x < self.num_values() && tbl@[x as int] is Some,
                forall|q: int| 0 <= q < hs@.len() ==> #[trigger] hs@[q] < self.num_nodes(),
                forall|q: int, j: int| 0 <= q < hs@.len() && 0 <= j < self.nds()[hs@[q] as int].inputs@.len() ==>
                    reached.contains(#[trigger] self.nds()[hs@[q] as int].inputs@[j]),
                k <= hs@.len(),
                r@.len() == k,
                forall|q: int| 0 <= q < k ==> self.node_entry(#[trigger] r@[q], self.nds()[hs@[q] as int], tbl@, reached),
            decreases hs@.len() - k,
        {
            let nd = &self.nodes[hs[k]];
            proof {
                assert(self.node_ok(hs@[k as int] as int));
            }
            let name = match &nd.name {
                Some(x) => x.clone(),
                None => String::new(),
            };
            let mut ins: Vec<String> = Vec::new();
            let mut j: usize = 0;
            while j < nd.inputs.len()
                invariant
                    *nd == self.nds()[hs@[k as int] as int],
                    k < hs@.len(),
                    tbl@.len() == self.num_values(),
                    forall|x: usize| #[trigger] reached.contains(x) ==> x < self.num_values() && tbl@[x as int] is Some,
                    forall|q: int, j: int| 0 <= q < hs@.len() && 0 <= j < self.nds()[hs@[q] as int].inputs@.len() ==>
                        reached.contains(#[trigger] self.nds()[hs@[q] as int].inputs@[j]),
                    j <= nd.inputs@.len(),
                    ins@.len() == j,
                    forall|q: int| 0 <= q < j ==> (#[trigger] ins@[q])@ == table_name(tbl@, nd.inputs@[q]),
                decreases nd.inputs@.len() - j,
            {
                proof {
                    assert(reached.contains(self.nds()[hs@[k as int] as int].inputs@[j as int]));
                }
                ins.push(name_in(tbl, nd.inputs[j]));
                j = j + 1;
            }
            let mut outs: Vec<String> = Vec::new();
            let mut j: usize = 0;
            while j < nd.outputs.len()
                invariant
                    *nd == self.nds()[hs@[k as int] as int],
                    self.node_ok(hs@[k as int] as int),
                    tbl@.len() == self.num_values(),
                    in_r@.len() == self.num_values(),
                    forall|x: usize| x < self.num_values() ==> (#[trigger] in_r@[x as int] <==> reached.contains(x)),
                    forall|x: usize| #[trigger] reached.contains(x) ==> x < self.num_values() && tbl@[x as int] is Some,
                    j <= nd.outputs@.len(),
                    outs@.len() == j,
                    forall|q: int| 0 <= q < j ==> (#[trigger] outs@[q])@ == (if reached.contains(nd.outputs@[q]) {
                        table_name(tbl@, nd.outputs@[q])
                    } else {
                        Seq::empty()
                    }),
                decreases nd.outputs@.len() - j,
            {
                let o = nd.outputs[j];
                proof {
                    assert(o < self.num_values());
                }
                if in_r[o] {
                    outs.push(name_in(tbl, o));
                } else {
                    outs.push(String::new());
                }
                j = j + 1;
            }
            r.push(NodeProto {
                name,
                op_type: nd.op_type.clone(),
                domain: nd.domain.clone(),
                inputs: ins,
                outputs: outs,
                attributes: copy_attributes(&nd.attributes),
            });
            k = k + 1;
        }
        r
    }
}

/// The handles of the declared outputs, in order.
fn output_handles(outputs: &Vec<(String, usize)>) -> (r: Vec<usize>)
    ensures
        r@ == out_handles(outputs@),
{
    let mut r: Vec<usize> = Vec::new();
    let mut i: usize = 0;
    while i < outputs.len()
        invariant
            i <= outputs@.len(),
            r@ == out_handles(outputs@.subrange(0, i as int)),
        decreases outputs@.len() - i,
    {
        r.push(outputs[i].1);
        i = i + 1;
        assert(r@ =~= out_handles(outputs@.subrange(0, i as int)));
    }
    assert(outputs@.subrange(0, outputs@.len() as int) =~= outputs@);
    r
}

/// One flag for each handle below `n`, set for the handles that `order` lists.
fn mark(order: &Vec<usize>, n: usize) -> (r: Vec<bool>)
    requires
        forall|i: int| 0 <= i < order@.len() ==> #[trigger] order@[i] < n,
    ensures
        r@.len() == n,
        forall|x: usize| x < n ==> (#[trigger] r@[x as int] <==> order@.contains(x)),
{
    let mut r: Vec<bool> = Vec::new();
    while r.len() < n
        invariant
            r@.len() <= n,
            forall|x: int| 0 <= x < r@.len() ==> !(#[trigger] r@[x]),
        decreases n - r@.len(),
    {
        r.push(false);
    }
    let mut i: usize = 0;
    while i < order.len()
        invariant
            forall|q: int| 0 <= q < order@.len() ==> #[trigger] order@[q] < n,
            i <= order@.len(),
            r@.len() == n,
            forall|x: usize| x < n ==> (#[trigger] r@[x as int] <==> order@.subrange(0, i as int).contains(x)),
        decreases order@.len() - i,
    {
        let ghost pre = order@.subrange(0, i as int);
        let ghost post = order@.subrange(0, i + 1);
        r.set(order[i], true);
        proof {
            assert(post =~= pre.push(order@[i as int]));
            assert forall|x: usize| x < n implies (#[trigger] r@[x as int] <==> post.contains(x)) by {
                if pre.contains(x) {
                    let k = choose|k: int| 0 <= k < pre.len() && pre[k] == x;
                    assert(post[k] == x);
                }
                if post.contains(x) && x != order@[i as int] {
                    let k = choose|k: int| 0 <= k < post.len() && post[k] == x;
                    assert(pre[k] == x);
                }
                assert(post[i as int] == order@[i as int]);
            }
        }
        i = i + 1;
    }
    assert(order@.subrange(0, order@.len() as int) =~= order@);
    r
}

impl Graph {
    /// Every declared input and output names a value of the graph.
    pub open(crate) spec fn handles_valid(&self, inputs: Seq<usize>, outs: Seq<(String, usize)>) -> bool {
        &&& forall|i: int| 0 <= i < inputs.len() ==> #[trigger] inputs[i] < self.num_values()
        &&& forall|i: int| 0 <= i < outs.len() ==> #[trigger] outs[i].1 < self.num_values()
    }

    /// A value of `s` holds a payload but has a dimension that is not known.
    pub open(crate) spec fn unresolved_constant(&self, s: Set<usize>) -> bool {
        exists|v: usize| #[trigger] s.contains(v) && self.has_data(v) && known_dims(self.vals()[v as int].shape@) is None
    }

    /// `m` is the descriptor of the graph with declared `inputs` and `outs`
    /// under `strategy`, given the value names `tbl`, an enumeration `ord` of
    /// the reachable values, an enumeration `hs` of the reachable nodes (each
    /// after the producers of its inputs) and the fresh strategy state `m0`.
    pub open(crate) spec fn assembled_with(
        &self,
        inputs: Seq<usize>,
        outs: Seq<(String, usize)>,
        strategy: WeightStorageStrategy,
        m: ModelProto,
        tbl: Seq<Option<String>>,
        ord: Seq<usize>,
        hs: Seq<usize>,
        m0: WeightOutputManager,
    ) -> bool {
        let roots = out_handles(outs).to_set();
        let reached = self.reachable(roots);
        let f = ord.filter(|v: usize| !self.declared(inputs, outs, v));
        let c = ord.filter(|v: usize| self.has_data(v));
        let gr = m.graph;
        &&& self.names_ok(reached, outs, tbl)
        &&& self.counters_ok(ord, outs, tbl)
        &&& ord.no_duplicates() && ord.to_set() == reached
        &&& hs.no_duplicates() && hs.to_set() == self.reachable_nodes(roots)
        &&& self.nodes_sorted(hs)
        &&& fresh_manager(strategy, m0)
        &&& m.ir_version == IR_VERSION
        &&& m.producer_name@ == PRODUCER@
        &&& gr.nodes@.len() == hs.len()
        &&& forall|k: int| 0 <= k < hs.len() ==> self.node_entry(#[trigger] gr.nodes@[k], self.nds()[hs[k] as int], tbl, reached)
        &&& gr.inputs@.len() == inputs.len()
        &&& forall|i: int| 0 <= i < inputs.len() ==> info_of(#[trigger] gr.inputs@[i], self.vals()[inputs[i] as int], table_name(tbl, inputs[i]))
        &&& gr.outputs@.len() == outs.len()
        &&& forall|i: int| 0 <= i < outs.len() ==> info_of(#[trigger] gr.outputs@[i], self.vals()[outs[i].1 as int], outs[i].0@)
        &&& gr.value_infos@.len() == f.len()
        &&& forall|k: int| 0 <= k < f.len() ==> info_of(#[trigger] gr.value_infos@[k], self.vals()[f[k] as int], table_name(tbl, f[k]))
        &&& gr.initializers@.len() == c.len()
        &&& forall|k: int| 0 <= k < c.len() ==> self.initializer_entry(#[trigger] gr.initializers@[k], c[k], table_name(tbl, c[k]), m0,
            payloads(*self, c.subrange(0, k)))
        &&& m.weight_file@ == (if m0 is Bin { payloads(*self, c) } else { Seq::empty() })
    }

    /// `m` is a descriptor of the graph with declared `inputs` and `outs` under `strategy`.
    pub open(crate) spec fn assembled(&self, inputs: Seq<usize>, outs: Seq<(String, usize)>, strategy: WeightStorageStrategy, m: ModelProto) -> bool {
        exists|tbl: Seq<Option<String>>, ord: Seq<usize>, hs: Seq<usize>, m0: WeightOutputManager|
            #[trigger] self.assembled_with(inputs, outs, strategy, m, tbl, ord, hs, m0)
    }

    proof fn lemma_reachable_closed(&self, roots: Set<usize>)
        ensures
            self.closed_under(self.reachable(roots)),
    {
        let r = self.reachable(roots);
        assert forall|v: usize, w: usize| r.contains(v) && #[trigger] self.feeds(v, w) implies r.contains(w) by {
            assert forall|s: Set<usize>| #[trigger] self.closed_under(s) && roots.subset_of(s) implies s.contains(w) by {
                assert(s.contains(v));
            }
        }
    }
}

/// What the assembly settles before any payload is placed: the reachable
/// values and nodes, a flag for each value that is reachable, and the name
/// of each reachable value.
#[derive(Debug)]
pub struct Layout {
    pub(crate) order: Vec<usize>,
    pub(crate) nodes: Vec<usize>,
    pub(crate) reached: Vec<bool>,
    pub(crate) names: Vec<Option<String>>,
}

impl Layout {
    /// The reachable values, each once.
    pub open(crate) spec fn order_view(&self) -> Seq<usize> {
        self.order@
    }

    /// The reachable nodes, each once.
    pub open(crate) spec fn nodes_view(&self) -> Seq<usize> {
        self.nodes@
    }

    /// The name table, by value handle.
    pub open(crate) spec fn names_view(&self) -> Seq<Option<String>> {
        self.names@
    }

    /// `m` is the descriptor of `g` built from this layout under `strategy`.
    pub open(crate) spec fn built(&self, g: Graph, inputs: Seq<usize>, outs: Seq<(String, usize)>, strategy: WeightStorageStrategy, m: ModelProto) -> bool {
        exists|m0: WeightOutputManager| #[trigger] g.assembled_with(inputs, outs, strategy, m, self.names@, self.order@, self.nodes@, m0)
    }

    /// This layout belongs to graph `g` with declared `inputs` and `outs`.
    pub open(crate) spec fn fits(&self, g: Graph, inputs: Seq<usize>, outs: Seq<(String, usize)>) -> bool {
        let roots = out_handles(outs).to_set();
        let reached = g.reachable(roots);
        &&& g.wf()
        &&& g.handles_valid(inputs, outs)
        &&& self.order@.no_duplicates() && self.order@.to_set() == reached
        &&& forall|i: int| 0 <= i < self.order@.len() ==> #[trigger] self.order@[i] < g.num_values()
        &&& self.nodes@.no_duplicates() && self.nodes@.to_set() == g.reachable_nodes(roots)
        &&& g.nodes_sorted(self.nodes@)
        &&& forall|k: int| 0 <= k < self.nodes@.len() ==> #[trigger] self.nodes@[k] < g.num_nodes()
        &&& g.inputs_before(self.order@)
        &&& self.reached@.len() == g.num_values()
        &&& forall|x: usize| x < g.num_values() ==> (#[trigger] self.reached@[x as int] <==> reached.contains(x))
        &&& g.names_ok(reached, outs, self.names@)
        &&& g.counters_ok(self.order@, outs, self.names@)
        &&& forall|i: int| 0 <= i < inputs.len() ==> reached.contains(#[trigger] inputs[i])
    }
}

/// Settles the layout of the graph whose declared inputs are `inputs` and
/// whose declared outputs are `outputs`: what is reachable from the outputs,
/// and the name of each reachable value.
///
/// Fails with `InvalidInputError` where a handle names no value; with
/// `NameConflictError` where two reachable values claim one name; with
/// `InvalidInputError` where a declared input is not reachable from the
/// outputs.
pub fn plan(g: &Graph, inputs: &Vec<usize>, outputs: &Vec<(String, usize)>) -> (r: Result<Layout, Error>)
    requires
        g.wf(),
    ensures
        !g.handles_valid(inputs@, outputs@) ==> r is Err && r->Err_0 is InvalidInputError,
        g.handles_valid(inputs@, outputs@) ==> ({
            let reached = g.reachable(out_handles(outputs@).to_set());
            let conflict = g.name_conflict(reached, outputs@);
            let inputs_reached = forall|i: int| 0 <= i < inputs@.len() ==> reached.contains(#[trigger] inputs@[i]);
            &&& conflict ==> r is Err && r->Err_0 is NameConflictError && g.named_twice(reached, outputs@, r->Err_0->NameConflictError_0@)
            &&& !conflict && !inputs_reached ==> r is Err && r->Err_0 is InvalidInputError
            &&& !conflict && inputs_reached ==> r is Ok && r->Ok_0.fits(*g, inputs@, outputs@)
        }),
{
    let n = g.values.len();
    let mut i: usize = 0;
    while i < inputs.len()
        invariant
            n == g.num_values(),
            i <= inputs@.len(),
            forall|q: int| 0 <= q < i ==> #[trigger] inputs@[q] < n,
        decreases inputs@.len() - i,
    {
        if inputs[i] >= n {
            return Err(Error::InvalidInputError);
        }
        i = i + 1;
    }
    let mut i: usize = 0;
    while i < outputs.len()
        invariant
            n == g.num_values(),
            forall|q: int| 0 <= q < inputs@.len() ==> #[trigger] inputs@[q] < n,
            i <= outputs@.len(),
            forall|q: int| 0 <= q < i ==> #[trigger] outputs@[q].1 < n,
        decreases outputs@.len() - i,
    {
        if outputs[i].1 >= n {
            return Err(Error::InvalidInputError);
        }
        i = i + 1;
    }
    let roots = output_handles(outputs);
    let ghost rs = roots@.to_set();
    let ghost reached = g.reachable(rs);
    let order = g.collect_values(&roots);
    let hs = g.collect_nodes(&order);
    proof {
        assert forall|v: usize| order@.contains(v) <==> #[trigger] reached.contains(v) by {
            assert(order@.to_set().contains(v) == order@.contains(v));
        }
    }
    proof {
        assert forall|i: int| 0 <= i < outputs@.len() implies order@.contains(#[trigger] outputs@[i].1) by {
            let v = outputs@[i].1;
            assert(roots@[i] == v);
            assert(roots@.contains(v));
            assert(rs.contains(v));
            assert forall|s: Set<usize>| #[trigger] g.closed_under(s) && rs.subset_of(s) implies s.contains(v) by {}
            assert(reached.contains(v));
        }
    }
    let tbl = match g.assign_names(&order, outputs) {
        Ok(tbl) => tbl,
        Err(e) => {
            return Err(e);
        },
    };
    let in_r = mark(&order, n);
    let mut i: usize = 0;
    while i < inputs.len()
        invariant
            n == g.num_values(),
            forall|q: int| 0 <= q < inputs@.len() ==> #[trigger] inputs@[q] < n,
            in_r@.len() == n,
            forall|x: usize| x < n ==> (#[trigger] in_r@[x as int] <==> reached.contains(x)),
            rs == out_handles(outputs@).to_set(),
            reached == g.reachable(rs),
            !g.name_conflict(reached, outputs@),
            i <= inputs@.len(),
            forall|q: int| 0 <= q < i ==> reached.contains(#[trigger] inputs@[q]),
        decreases inputs@.len() - i,
    {
        if !in_r[inputs[i]] {
            proof {
                assert(!reached.contains(inputs@[i as int]));
            }
            return Err(Error::InvalidInputError);
        }
        i = i + 1;
    }
    proof {
        assert(hs@.to_set() =~= g.reachable_nodes(rs)) by {
            assert forall|h: usize| hs@.to_set().contains(h) implies g.reachable_nodes(rs).contains(h) by {
                let v = choose|v: usize| order@.contains(v) && #[trigger] g.producer_node(v) == Some(h);
                assert(reached.contains(v));
            }
            assert forall|h: usize| g.reachable_nodes(rs).contains(h) implies hs@.to_set().contains(h) by {
                let v = choose|v: usize| reached.contains(v) && #[trigger] g.producer_node(v) == Some(h);
                assert(order@.contains(v));
            }
        }
    }
    Ok(Layout { order, nodes: hs, reached: in_r, names: tbl })
}

/// Builds the descriptor from a settled layout, with the payloads of
/// constants placed by `weight_storage`. Fails with
/// `UnresolvedDimensionError` where a reachable constant has a dimension that
/// is not known. Everything but the payloads is fixed by the layout.
pub fn build_with(g: &Graph, layout: &Layout, inputs: &Vec<usize>, outputs: &Vec<(String, usize)>, weight_storage: WeightStorageStrategy) -> (r: Result<ModelProto, Error>)
    requires
        layout.fits(*g, inputs@, outputs@),
    ensures
        ({
            let reached = g.reachable(out_handles(outputs@).to_set());
            &&& g.unresolved_constant(reached) ==> r is Err && r->Err_0 is UnresolvedDimensionError
            &&& !g.unresolved_constant(reached) ==> r is Ok && layout.built(*g, inputs@, outputs@, weight_storage, r->Ok_0)
        }),
{
    let ghost rs = out_handles(outputs@).to_set();
    let ghost reached = g.reachable(rs);
    let order = &layout.order;
    let tbl = &layout.names;
    let hs = &layout.nodes;
    proof {
        assert forall|v: usize| order@.contains(v) <==> #[trigger] reached.contains(v) by {
            assert(order@.to_set().contains(v) == order@.contains(v));
        }
        assert forall|q: int| 0 <= q < order@.len() implies #[trigger] order@[q] < g.num_values() && order@[q] < tbl@.len()
            && tbl@[order@[q] as int] is Some by {
            assert(order@.contains(order@[q]));
            assert(reached.contains(order@[q]));
        }
    }
    let mut sink = weight_storage.get_manager();
    let ghost m0 = sink;
    let initializers = match g.initializers(order, tbl, &mut sink) {
        Ok(v) => v,
        Err(e) => {
            proof {
                let q = choose|q: int| 0 <= q < order@.len() && g.has_data(#[trigger] order@[q])
                    && known_dims(g.vals()[order@[q] as int].shape@) is None;
                assert(reached.contains(order@[q]));
            }
            return Err(e);
        },
    };
    let weight_file = sink.finalize();
    proof {
        if g.unresolved_constant(reached) {
            let v = choose|v: usize| #[trigger] reached.contains(v) && g.has_data(v) && known_dims(g.vals()[v as int].shape@) is None;
            assert(order@.contains(v));
            let q = choose|q: int| 0 <= q < order@.len() && order@[q] == v;
            assert(g.has_data(order@[q]) && known_dims(g.vals()[order@[q] as int].shape@) is None);
            assert(false);
        }
        g.lemma_reachable_closed(rs);
        assert forall|k: int, j: int| 0 <= k < hs@.len() && 0 <= j < g.nds()[hs@[k] as int].inputs@.len() implies
            reached.contains(#[trigger] g.nds()[hs@[k] as int].inputs@[j]) by {
            let h = hs@[k];
            assert(hs@.contains(h));
            assert(hs@.to_set().contains(h));
            let v = choose|v: usize| reached.contains(v) && #[trigger] g.producer_node(v) == Some(h);
            let w = g.nds()[h as int].inputs@[j];
            assert(g.nds()[h as int].inputs@.contains(w));
            assert(g.feeds(v, w));
        }
    }
    let nodes = g.node_entries(hs, tbl, &layout.reached, Ghost(reached));
    let input_infos = g.input_infos(inputs, tbl);
    let output_infos = g.output_infos(outputs);
    let value_infos = g.intermediate_infos(order, inputs, outputs, tbl);
    let m = ModelProto {
        ir_version: IR_VERSION,
        producer_name: PRODUCER.to_owned(),
        graph: GraphProto { nodes, initializers, inputs: input_infos, outputs: output_infos, value_infos },
        weight_file,
    };
    proof {
        let f = order@.filter(|v: usize| !g.declared(inputs@, outputs@, v));
        let c = order@.filter(|v: usize| g.has_data(v));
        assert(g.names_ok(reached, outputs@, tbl@));
        assert(order@.no_duplicates() && order@.to_set() == reached);
        assert(hs@.no_duplicates() && hs@.to_set() == g.reachable_nodes(out_handles(outputs@).to_set()));
        assert(fresh_manager(weight_storage, m0));
        assert(m.graph.nodes@.len() == hs@.len());
        assert(m.graph.value_infos@.len() == f.len());
        assert(m.graph.initializers@.len() == c.len());
        assert(m.weight_file@ == (if m0 is Bin { payloads(*g, c) } else { Seq::empty() }));
        assert(g.assembled_with(inputs@, outputs@, weight_storage, m, tbl@, order@, hs@, m0));
        assert(g.assembled_with(inputs@, outputs@, weight_storage, m, layout.names_view(), layout.order_view(), layout.nodes_view(), m0));
        assert(!g.unresolved_constant(reached));
    }
    Ok(m)
}

/// Assembles the descriptor of the graph whose declared inputs are `inputs`
/// and whose declared outputs are `outputs`, with the payloads of constants
/// placed by `weight_storage`: `plan`, then `build_with`.
///
/// Fails with `InvalidInputError` where a handle names no value; with
/// `NameConflictError` where two reachable values claim one name; with
/// `InvalidInputError` where a declared input is not reachable from the
/// outputs; with `UnresolvedDimensionError` where a reachable constant has a
/// dimension that is not known.
pub fn build_proto(g: &Graph, inputs: &Vec<usize>, outputs: &Vec<(String, usize)>, weight_storage: WeightStorageStrategy) -> (r: Result<ModelProto, Error>)
    requires
        g.wf(),
    ensures
        !g.handles_valid(inputs@, outputs@) ==> r is Err && r->Err_0 is InvalidInputError,
        g.handles_valid(inputs@, outputs@) ==> ({
            let reached = g.reachable(out_handles(outputs@).to_set());
            let conflict = g.name_conflict(reached, outputs@);
            let inputs_reached = forall|i: int| 0 <= i < inputs@.len() ==> reached.contains(#[trigger] inputs@[i]);
            &&& conflict ==> r is Err && r->Err_0 is NameConflictError && g.named_twice(reached, outputs@, r->Err_0->NameConflictError_0@)
            &&& !conflict && !inputs_reached ==> r is Err && r->Err_0 is InvalidInputError
            &&& !conflict && inputs_reached && g.unresolved_constant(reached) ==> r is Err && r->Err_0 is UnresolvedDimensionError
            &&& !conflict && inputs_reached && !g.unresolved_constant(reached) ==> r is Ok && g.assembled(inputs@, outputs@, weight_storage, r->Ok_0)
        }),
{
    let layout = match plan(g, inputs, outputs) {
        Ok(l) => l,
        Err(e) => {
            return Err(e);
        },
    };
    let r = build_with(g, &layout, inputs, outputs, weight_storage);
    proof {
        if r is Ok {
            let m0 = choose|m0: WeightOutputManager|
                #[trigger] g.assembled_with(inputs@, outputs@, weight_storage, r->Ok_0, layout.names@, layout.order@, layout.nodes@, m0);
            assert(g.assembled_with(inputs@, outputs@, weight_storage, r->Ok_0, layout.names@, layout.order@, layout.nodes@, m0));
        }
    }
    r
}

} // verus!
