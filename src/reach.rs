use vstd::prelude::*;
use crate::graph::Graph;

verus! {

impl Graph {
    /// Every input of the producer of a member of `s` is a member of `s`.
    pub open(crate) spec fn closed_under(&self, s: Set<usize>) -> bool {
        forall|v: usize, w: usize| s.contains(v) && #[trigger] self.feeds(v, w) ==> s.contains(w)
    }

    /// The values held by every input-closed set that holds `roots`: the roots
    /// and all that they depend on, each counted once by its handle.
    pub open(crate) spec fn reachable(&self, roots: Set<usize>) -> Set<usize> {
        Set::new(|w: usize| forall|s: Set<usize>| #[trigger] self.closed_under(s) && roots.subset_of(s) ==> s.contains(w))
    }

    /// The handle of the node that produces value `v`, if any.
    pub open(crate) spec fn producer_node(&self, v: usize) -> Option<usize> {
        match self.vals()[v as int].producer {
            Some(p) => Some(p.node),
            None => None,
        }
    }

    /// The nodes that produce a value reachable from `roots`.
    pub open(crate) spec fn reachable_nodes(&self, roots: Set<usize>) -> Set<usize> {
        Set::new(|n: usize| exists|v: usize| self.reachable(roots).contains(v) && #[trigger] self.producer_node(v) == Some(n))
    }

    /// Each value of `order` comes after every input of its producer.
    pub open(crate) spec fn inputs_before(&self, order: Seq<usize>) -> bool {
        forall|i: int, w: usize| 0 <= i < order.len() && #[trigger] self.feeds(order[i], w) ==> order.subrange(0, i).contains(w)
    }

    /// Each node of `hs` comes after the nodes that produce its inputs.
    pub open(crate) spec fn nodes_sorted(&self, hs: Seq<usize>) -> bool {
        forall|k: int, j: int| 0 <= k < hs.len() && 0 <= j < self.nds()[hs[k] as int].inputs@.len()
            && (#[trigger] self.producer_node(self.nds()[hs[k] as int].inputs@[j])) is Some ==>
            hs.subrange(0, k).contains(self.producer_node(self.nds()[hs[k] as int].inputs@[j])->Some_0)
    }

    /// `seen` marks exactly the handles listed once each in `order`.
    pub open(crate) spec fn marks(&self, seen: Seq<bool>, order: Seq<usize>) -> bool {
        &&& seen.len() == self.num_values()
        &&& order.no_duplicates()
        &&& forall|i: int| 0 <= i < order.len() ==> (#[trigger] order[i]) < self.num_values()
        &&& forall|x: usize| x < seen.len() ==> (#[trigger] seen[x as int] <==> order.contains(x))
    }

    proof fn lemma_feeds_smaller(&self, v: usize, w: usize)
        requires
            self.wf(),
            self.feeds(v, w),
        ensures
            w < v,
    {
        let p = self.vals()[v as int].producer->Some_0;
        assert(self.producer_ok(v as int));
        assert(self.node_ok(p.node as int));
        let node = self.nds()[p.node as int];
        let i = choose|i: int| 0 <= i < node.inputs@.len() && node.inputs@[i] == w;
        assert(node.inputs@[i] < node.outputs@[p.output_index as int]);
    }

    /// Lists `v` and, before it, every value it depends on that `order` lacks.
    fn visit(&self, v: usize, seen: &mut Vec<bool>, order: &mut Vec<usize>, Ghost(roots): Ghost<Set<usize>>)
        requires
            self.wf(),
            v < self.num_values(),
            self.marks(old(seen)@, old(order)@),
            self.inputs_before(old(order)@),
            forall|i: int| 0 <= i < old(order)@.len() ==> self.reachable(roots).contains(#[trigger] old(order)@[i]),
            self.reachable(roots).contains(v),
        ensures
            self.marks(final(seen)@, final(order)@),
            self.inputs_before(final(order)@),
            forall|i: int| 0 <= i < final(order)@.len() ==> self.reachable(roots).contains(#[trigger] final(order)@[i]),
            final(order)@.contains(v),
            old(order)@.len() <= final(order)@.len(),
            final(order)@.subrange(0, old(order)@.len() as int) == old(order)@,
        decreases v,
    {
        let ghost start = order@;
        if seen[v] {
            assert(order@.subrange(0, order@.len() as int) =~= order@);
            return;
        }
        match self.values[v].producer {
            Some(p) => {
                proof {
                    assert(self.producer_ok(v as int));
                }
                let inputs = &self.nodes[p.node].inputs;
                let mut i: usize = 0;
                while i < inputs.len()
                    invariant
                        self.wf(),
                        v < self.num_values(),
                        self.vals()[v as int].producer == Some(p),
                        p.node < self.num_nodes(),
                        *inputs == self.nds()[p.node as int].inputs,
                        i <= inputs@.len(),
                        self.marks(seen@, order@),
                        self.inputs_before(order@),
                        forall|k: int| 0 <= k < order@.len() ==> self.reachable(roots).contains(#[trigger] order@[k]),
                        self.reachable(roots).contains(v),
                        forall|j: int| 0 <= j < i ==> order@.contains(#[trigger] inputs@[j]),
                        start.len() <= order@.len(),
                        order@.subrange(0, start.len() as int) == start,
                    decreases inputs@.len() - i,
                {
                    let w = inputs[i];
                    proof {
                        assert(inputs@.contains(w));
                        assert(self.feeds(v, w));
                        self.lemma_feeds_smaller(v, w);
                        assert forall|s: Set<usize>| #[trigger] self.closed_under(s) && roots.subset_of(s) implies s.contains(w) by {
                            assert(s.contains(v));
                        }
                    }
                    let ghost before = order@;
                    self.visit(w, seen, order, Ghost(roots));
                    proof {
                        assert forall|j: int| 0 <= j < i + 1 implies order@.contains(#[trigger] inputs@[j]) by {
                            if j < i {
                                let k = choose|k: int| 0 <= k < before.len() && before[k] == inputs@[j];
                                assert(order@.subrange(0, before.len() as int)[k] == order@[k]);
                            }
                        }
                        assert(order@.subrange(0, start.len() as int) =~= before.subrange(0, start.len() as int));
                    }
                    i = i + 1;
                }
            },
            None => {},
        }
        if !seen[v] {
            let ghost before = order@;
            seen.set(v, true);
            order.push(v);
            proof {
                assert(order@ == before.push(v));
                assert(order@.subrange(0, before.len() as int) =~= before);
                assert(order@[before.len() as int] == v);
                assert forall|x: usize| x < seen@.len() implies (#[trigger] seen@[x as int] <==> order@.contains(x)) by {
                    if x != v {
                        if order@.contains(x) {
                            let k = choose|k: int| 0 <= k < order@.len() && order@[k] == x;
                            assert(k < before.len());
                            assert(before[k] == x);
                        }
                        if before.contains(x) {
                            let k = choose|k: int| 0 <= k < before.len() && before[k] == x;
                            assert(order@[k] == x);
                        }
                    }
                }
                assert forall|q: int, w: usize| 0 <= q < order@.len() && #[trigger] self.feeds(order@[q], w) implies order@.subrange(0, q).contains(w) by {
                    if q < before.len() {
                        assert(before.subrange(0, q) =~= order@.subrange(0, q));
                    } else {
                        let node = self.nds()[self.vals()[v as int].producer->Some_0.node as int];
                        let j = choose|j: int| 0 <= j < node.inputs@.len() && node.inputs@[j] == w;
                        assert(before.contains(node.inputs@[j]));
                        assert(order@.subrange(0, q) =~= before);
                    }
                }
                assert(start.len() <= before.len());
                assert(order@.subrange(0, start.len() as int) =~= before.subrange(0, start.len() as int));
            }
        } else {
            proof {
                assert(seen@[v as int]);
            }
        }
    }

    /// Lists the values reachable from `roots`, each once, every value after
    /// the inputs of its producer.
    pub fn collect_values(&self, roots: &Vec<usize>) -> (r: Vec<usize>)
        requires
            self.wf(),
            forall|i: int| 0 <= i < roots@.len() ==> #[trigger] roots@[i] < self.num_values(),
        ensures
            r@.no_duplicates(),
            r@.to_set() == self.reachable(roots@.to_set()),
            self.inputs_before(r@),
            forall|i: int| 0 <= i < r@.len() ==> #[trigger] r@[i] < self.num_values(),
    {
        let ghost rs = roots@.to_set();
        let n = self.values.len();
        let mut seen: Vec<bool> = Vec::new();
        while seen.len() < n
            invariant
                n == self.num_values(),
                seen@.len() <= n,
                forall|x: int| 0 <= x < seen@.len() ==> !(#[trigger] seen@[x]),
            decreases n - seen@.len(),
        {
            seen.push(false);
        }
        let mut order: Vec<usize> = Vec::new();
        let mut i: usize = 0;
        while i < roots.len()
            invariant
                self.wf(),
                forall|k: int| 0 <= k < roots@.len() ==> #[trigger] roots@[k] < self.num_values(),
                i <= roots@.len(),
                rs == roots@.to_set(),
                self.marks(seen@, order@),
                self.inputs_before(order@),
                forall|k: int| 0 <= k < order@.len() ==> self.reachable(rs).contains(#[trigger] order@[k]),
                forall|j: int| 0 <= j < i ==> order@.contains(#[trigger] roots@[j]),
            decreases roots@.len() - i,
        {
            let v = roots[i];
            proof {
                assert(roots@[i as int] == v);
                assert(roots@.contains(v));
                assert(rs.contains(v));
            }
            let ghost before = order@;
            self.visit(v, &mut seen, &mut order, Ghost(rs));
            proof {
                assert forall|j: int| 0 <= j < i + 1 implies order@.contains(#[trigger] roots@[j]) by {
                    if j < i {
                        let k = choose|k: int| 0 <= k < before.len() && before[k] == roots@[j];
                        assert(order@.subrange(0, before.len() as int)[k] == order@[k]);
                    }
                }
            }
            i = i + 1;
        }
        proof {
            let got = order@.to_set();
            assert(self.closed_under(got)) by {
                assert forall|v: usize, w: usize| got.contains(v) && #[trigger] self.feeds(v, w) implies got.contains(w) by {
                    let k = choose|k: int| 0 <= k < order@.len() && order@[k] == v;
                    let j = choose|j: int| 0 <= j < k && order@.subrange(0, k)[j] == w;
                    assert(order@[j] == w);
                }
            }
            assert(rs.subset_of(got)) by {
                assert forall|x: usize| rs.contains(x) implies got.contains(x) by {
                    let j = choose|j: int| 0 <= j < roots@.len() && roots@[j] == x;
                    assert(order@.contains(roots@[j]));
                }
            }
            assert(got =~= self.reachable(rs)) by {
                assert forall|x: usize| got.contains(x) implies self.reachable(rs).contains(x) by {
                    let k = choose|k: int| 0 <= k < order@.len() && order@[k] == x;
                    assert(self.reachable(rs).contains(order@[k]));
                }
            }
        }
        order
    }

    /// Lists the nodes that produce a value of `vals`, each once, in the order
    /// of their first output in `vals`.
    pub fn collect_nodes(&self, vals: &Vec<usize>) -> (r: Vec<usize>)
        requires
            self.wf(),
            forall|i: int| 0 <= i < vals@.len() ==> #[trigger] vals@[i] < self.num_values(),
            self.inputs_before(vals@),
        ensures
            self.nodes_sorted(r@),
            r@.no_duplicates(),
            forall|m: usize| r@.contains(m) <==> exists|v: usize| vals@.contains(v) && #[trigger] self.producer_node(v) == Some(m),
            forall|i: int| 0 <= i < r@.len() ==> #[trigger] r@[i] < self.num_nodes(),
    {
        let n = self.nodes.len();
        let mut seen: Vec<bool> = Vec::new();
        while seen.len() < n
            invariant
                n == self.num_nodes(),
                seen@.len() <= n,
                forall|x: int| 0 <= x < seen@.len() ==> !(#[trigger] seen@[x]),
            decreases n - seen@.len(),
        {
            seen.push(false);
        }
        let mut r: Vec<usize> = Vec::new();
        let mut i: usize = 0;
        while i < vals.len()
            invariant
                self.wf(),
                n == self.num_nodes(),
                forall|k: int| 0 <= k < vals@.len() ==> #[trigger] vals@[k] < self.num_values(),
                i <= vals@.len(),
                seen@.len() == n,
                r@.no_duplicates(),
                forall|k: int| 0 <= k < r@.len() ==> #[trigger] r@[k] < n,
                forall|x: usize| x < n ==> (#[trigger] seen@[x as int] <==> r@.contains(x)),
                forall|m: usize| r@.contains(m) <==> exists|v: usize| vals@.subrange(0, i as int).contains(v) && #[trigger] self.producer_node(v) == Some(m),
                self.inputs_before(vals@),
                self.nodes_sorted(r@),
            decreases vals@.len() - i,
        {
            let v = vals[i];
            let ghost before = r@;
            proof {
                assert(self.producer_ok(v as int));
            }
            let ghost old_seen = seen@;
            let ghost mut added: Option<usize> = None;
            match self.values[v].producer {
                Some(p) => {
                    if !seen[p.node] {
                        seen.set(p.node, true);
                        r.push(p.node);
                        proof {
                            added = Some(p.node);
                        }
                    }
                },
                None => {},
            }
            proof {
                assert(added is None ==> r@ == before && seen@ == old_seen);
                assert(added is None ==> self.producer_node(v) is None || old_seen[self.producer_node(v)->Some_0 as int]);
                assert(added is Some ==> r@ == before.push(added->Some_0) && seen@ == old_seen.update(added->Some_0 as int, true)
                    && !old_seen[added->Some_0 as int] && self.producer_node(v) == added);
                let pre = vals@.subrange(0, i as int);
                let post = vals@.subrange(0, i + 1);
                assert(post =~= pre.push(v));
                assert forall|x: usize| x < n implies (#[trigger] seen@[x as int] <==> r@.contains(x)) by {
                    if added is Some {
                        let m = added->Some_0;
                        assert(r@[before.len() as int] == m);
                        if x != m {
                            assert(seen@[x as int] == old_seen[x as int]);
                            if r@.contains(x) {
                                let k = choose|k: int| 0 <= k < r@.len() && r@[k] == x;
                                assert(before[k] == x);
                            }
                            if before.contains(x) {
                                let k = choose|k: int| 0 <= k < before.len() && before[k] == x;
                                assert(r@[k] == x);
                            }
                        }
                    }
                }
                assert forall|m: usize| r@.contains(m) implies exists|u: usize| post.contains(u) && #[trigger] self.producer_node(u) == Some(m) by {
                    if before.contains(m) {
                        let u = choose|u: usize| pre.contains(u) && #[trigger] self.producer_node(u) == Some(m);
                        let k = choose|k: int| 0 <= k < pre.len() && pre[k] == u;
                        assert(post[k] == u);
                    } else {
                        let k = choose|k: int| 0 <= k < r@.len() && r@[k] == m;
                        assert(k == before.len());
                        assert(post[i as int] == v);
                    }
                }
                assert forall|k: int, j: int| 0 <= k < r@.len() && 0 <= j < self.nds()[r@[k] as int].inputs@.len()
                    && (#[trigger] self.producer_node(self.nds()[r@[k] as int].inputs@[j])) is Some implies
                    r@.subrange(0, k).contains(self.producer_node(self.nds()[r@[k] as int].inputs@[j])->Some_0) by {
                    let m = self.producer_node(self.nds()[r@[k] as int].inputs@[j])->Some_0;
                    if k < before.len() {
                        assert(r@.subrange(0, k) =~= before.subrange(0, k));
                        assert(r@[k] == before[k]);
                    } else {
                        let h = r@[k];
                        assert(added == Some(h));
                        let w = self.nds()[h as int].inputs@[j];
                        assert(self.producer_ok(v as int));
                        assert(self.nds()[h as int].inputs@.contains(w));
                        assert(self.feeds(v, w));
                        assert(vals@[i as int] == v);
                        assert(vals@.subrange(0, i as int).contains(w));
                        assert(before.contains(m));
                        assert(r@.subrange(0, k) =~= before);
                    }
                }
                assert forall|m: usize| (exists|u: usize| post.contains(u) && #[trigger] self.producer_node(u) == Some(m)) implies r@.contains(m) by {
                    let u = choose|u: usize| post.contains(u) && #[trigger] self.producer_node(u) == Some(m);
                    let k = choose|k: int| 0 <= k < post.len() && post[k] == u;
                    if k < i {
                        assert(pre[k] == u);
                        assert(before.contains(m));
                        let j = choose|j: int| 0 <= j < before.len() && before[j] == m;
                        assert(r@[j] == m);
                    } else {
                        assert(u == v);
                        if r@.len() == before.len() + 1 {
                            assert(r@[before.len() as int] == m);
                        } else {
                            assert(seen@[m as int]);
                        }
                    }
                }
            }
            i = i + 1;
        }
        assert(vals@.subrange(0, vals@.len() as int) =~= vals@);
        r
    }
}

} // verus!
