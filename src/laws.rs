use vstd::prelude::*;
use crate::assemble::{Layout, ModelProto, out_handles};
use crate::graph::Graph;
use crate::naming::last_output_name;
use crate::weights::{WeightOutputManager, WeightStorageStrategy};

verus! {

/// Two collections of the reachable values, from root lists with the same
/// members, hold the same values, and each lists every reachable value
/// exactly once: its length is the number of distinct reachable values.
pub proof fn lemma_collection_stable(g: Graph, roots1: Seq<usize>, roots2: Seq<usize>, out1: Seq<usize>, out2: Seq<usize>)
    requires
        roots1.to_set() == roots2.to_set(),
        out1.no_duplicates(),
        out1.to_set() == g.reachable(roots1.to_set()),
        out2.no_duplicates(),
        out2.to_set() == g.reachable(roots2.to_set()),
    ensures
        out1.to_set() == out2.to_set(),
        out1.len() == g.reachable(roots1.to_set()).len(),
        out2.len() == out1.len(),
{
    out1.unique_seq_to_set();
    out2.unique_seq_to_set();
}

proof fn lemma_no_output_name(outs: Seq<(String, usize)>, v: usize)
    requires
        !out_handles(outs).contains(v),
    ensures
        last_output_name(outs, v) is None,
    decreases outs.len(),
{
    if outs.len() > 0 {
        assert(out_handles(outs)[outs.len() - 1] == outs.last().1);
        assert(out_handles(outs.drop_last()) =~= out_handles(outs).drop_last());
        if out_handles(outs.drop_last()).contains(v) {
            let k = choose|k: int| 0 <= k < out_handles(outs.drop_last()).len() && out_handles(outs.drop_last())[k] == v;
            assert(out_handles(outs)[k] == v);
        }
        lemma_no_output_name(outs.drop_last(), v);
    }
}

/// A name table that names the values of `s` gives distinct values distinct
/// names, a value that asks for a name and is not a declared output carries
/// that name verbatim, and a generated name is never one that a value of `s`
/// claims.
pub proof fn lemma_names_unique_and_kept(g: Graph, s: Set<usize>, outs: Seq<(String, usize)>, tbl: Seq<Option<String>>)
    requires
        g.names_ok(s, outs, tbl),
    ensures
        forall|v1: usize, v2: usize| s.contains(v1) && s.contains(v2) && v1 != v2 ==>
            #[trigger] tbl[v1 as int]->Some_0@ != #[trigger] tbl[v2 as int]->Some_0@,
        forall|v: usize| #[trigger] s.contains(v) && g.explicit_name(v) is Some && !out_handles(outs).contains(v) ==>
            tbl[v as int]->Some_0@ == g.explicit_name(v)->Some_0,
        forall|v: usize, u: usize, x: Seq<char>| s.contains(v) && s.contains(u) && g.fixed_name(outs, v) is None
            && #[trigger] g.claims(outs, u, x) ==> #[trigger] tbl[v as int]->Some_0@ != x,
{
    assert forall|v1: usize, v2: usize| s.contains(v1) && s.contains(v2) && v1 != v2 implies
        #[trigger] tbl[v1 as int]->Some_0@ != #[trigger] tbl[v2 as int]->Some_0@ by {
    }
    assert forall|v: usize| #[trigger] s.contains(v) && g.explicit_name(v) is Some && !out_handles(outs).contains(v) implies
        tbl[v as int]->Some_0@ == g.explicit_name(v)->Some_0 by {
        lemma_no_output_name(outs, v);
    }
}

/// Two distinct reachable values that both claim the name `x` (by asking for
/// it, or by an output declaration) make the assembly fail with a name
/// conflict on `x`.
pub proof fn lemma_duplicate_name_conflicts(g: Graph, outs: Seq<(String, usize)>, v1: usize, v2: usize, x: Seq<char>)
    requires
        g.reachable(out_handles(outs).to_set()).contains(v1),
        g.reachable(out_handles(outs).to_set()).contains(v2),
        v1 != v2,
        g.claims(outs, v1, x),
        g.claims(outs, v2, x),
    ensures
        g.named_twice(g.reachable(out_handles(outs).to_set()), outs, x),
        g.name_conflict(g.reachable(out_handles(outs).to_set()), outs),
{
    let s = g.reachable(out_handles(outs).to_set());
    assert(g.clash_on(outs, v1, v2, x));
    assert(g.named_twice(s, outs, x));
}

/// Two descriptors agree on every section but the payloads: the nodes, the
/// declared inputs and outputs, the intermediate values, and the names, types
/// and extents of the initializers.
pub open spec fn same_but_payloads(m1: ModelProto, m2: ModelProto) -> bool {
    &&& (m1.graph.nodes@.len() == m2.graph.nodes@.len())
    &&& (forall|k: int| 0 <= k < m1.graph.nodes@.len() ==> {
            let a = #[trigger] m1.graph.nodes@[k];
            let b = m2.graph.nodes@[k];
            &&& a.name@ == b.name@ && a.op_type@ == b.op_type@ && a.domain@ == b.domain@
            &&& a.inputs@.len() == b.inputs@.len()
            &&& (forall|j: int| 0 <= j < a.inputs@.len() ==> (#[trigger] a.inputs@[j])@ == b.inputs@[j]@)
            &&& a.outputs@.len() == b.outputs@.len()
            &&& (forall|j: int| 0 <= j < a.outputs@.len() ==> (#[trigger] a.outputs@[j])@ == b.outputs@[j]@)
        })
    &&& (m1.graph.inputs@.len() == m2.graph.inputs@.len())
    &&& (forall|k: int| 0 <= k < m1.graph.inputs@.len() ==> (#[trigger] m1.graph.inputs@[k]).name@ == m2.graph.inputs@[k].name@
            && m1.graph.inputs@[k].dtype == m2.graph.inputs@[k].dtype && m1.graph.inputs@[k].shape@ == m2.graph.inputs@[k].shape@)
    &&& (m1.graph.outputs@.len() == m2.graph.outputs@.len())
    &&& (forall|k: int| 0 <= k < m1.graph.outputs@.len() ==> (#[trigger] m1.graph.outputs@[k]).name@ == m2.graph.outputs@[k].name@
            && m1.graph.outputs@[k].dtype == m2.graph.outputs@[k].dtype && m1.graph.outputs@[k].shape@ == m2.graph.outputs@[k].shape@)
    &&& (m1.graph.value_infos@.len() == m2.graph.value_infos@.len())
    &&& (forall|k: int| 0 <= k < m1.graph.value_infos@.len() ==> (#[trigger] m1.graph.value_infos@[k]).name@ == m2.graph.value_infos@[k].name@
            && m1.graph.value_infos@[k].dtype == m2.graph.value_infos@[k].dtype
            && m1.graph.value_infos@[k].shape@ == m2.graph.value_infos@[k].shape@)
    &&& (m1.graph.initializers@.len() == m2.graph.initializers@.len())
    &&& (forall|k: int| 0 <= k < m1.graph.initializers@.len() ==> (#[trigger] m1.graph.initializers@[k]).name@ == m2.graph.initializers@[k].name@
            && m1.graph.initializers@[k].dtype == m2.graph.initializers@[k].dtype
            && m1.graph.initializers@[k].dims@ == m2.graph.initializers@[k].dims@)
}

/// Descriptors built from one layout under two weight strategies differ
/// only in how the payloads are held.
pub proof fn lemma_strategy_only_moves_payloads(
    g: Graph,
    layout: Layout,
    inputs: Seq<usize>,
    outs: Seq<(String, usize)>,
    s1: WeightStorageStrategy,
    s2: WeightStorageStrategy,
    m1: ModelProto,
    m2: ModelProto,
)
    requires
        layout.built(g, inputs, outs, s1, m1),
        layout.built(g, inputs, outs, s2, m2),
    ensures
        same_but_payloads(m1, m2),
{
    let w1 = choose|w: WeightOutputManager| #[trigger] g.assembled_with(inputs, outs, s1, m1, layout.names_view(), layout.order_view(), layout.nodes_view(), w);
    let w2 = choose|w: WeightOutputManager| #[trigger] g.assembled_with(inputs, outs, s2, m2, layout.names_view(), layout.order_view(), layout.nodes_view(), w);
    lemma_sections_agree(g, inputs, outs, s1, s2, m1, m2, layout.names_view(), layout.order_view(), layout.nodes_view(), w1, w2);
}

proof fn lemma_sections_agree(
    g: Graph,
    inputs: Seq<usize>,
    outs: Seq<(String, usize)>,
    s1: WeightStorageStrategy,
    s2: WeightStorageStrategy,
    m1: ModelProto,
    m2: ModelProto,
    tbl: Seq<Option<String>>,
    ord: Seq<usize>,
    hs: Seq<usize>,
    w1: WeightOutputManager,
    w2: WeightOutputManager,
)
    requires
        g.assembled_with(inputs, outs, s1, m1, tbl, ord, hs, w1),
        g.assembled_with(inputs, outs, s2, m2, tbl, ord, hs, w2),
    ensures
        same_but_payloads(m1, m2),
{
    assert forall|k: int| 0 <= k < m1.graph.nodes@.len() implies {
        let a = #[trigger] m1.graph.nodes@[k];
        let b = m2.graph.nodes@[k];
        &&& a.name@ == b.name@ && a.op_type@ == b.op_type@ && a.domain@ == b.domain@
        &&& a.inputs@.len() == b.inputs@.len()
        &&& (forall|j: int| 0 <= j < a.inputs@.len() ==> (#[trigger] a.inputs@[j])@ == b.inputs@[j]@)
        &&& a.outputs@.len() == b.outputs@.len()
        &&& (forall|j: int| 0 <= j < a.outputs@.len() ==> (#[trigger] a.outputs@[j])@ == b.outputs@[j]@)
    } by {
        let a = m1.graph.nodes@[k];
        let b = m2.graph.nodes@[k];
        let nd = g.nds()[hs[k] as int];
        assert(g.node_entry(a, nd, tbl, g.reachable(out_handles(outs).to_set())));
        assert(g.node_entry(b, nd, tbl, g.reachable(out_handles(outs).to_set())));
        assert forall|j: int| 0 <= j < a.inputs@.len() implies (#[trigger] a.inputs@[j])@ == b.inputs@[j]@ by {
            assert(a.inputs@[j]@ == crate::assemble::table_name(tbl, nd.inputs@[j]));
            assert(b.inputs@[j]@ == crate::assemble::table_name(tbl, nd.inputs@[j]));
        }
        assert forall|j: int| 0 <= j < a.outputs@.len() implies (#[trigger] a.outputs@[j])@ == b.outputs@[j]@ by {
            assert(a.outputs@[j]@ == b.outputs@[j]@);
        }
    }
    let c = ord.filter(|v: usize| g.has_data(v));
    assert forall|k: int| 0 <= k < m1.graph.initializers@.len() implies (#[trigger] m1.graph.initializers@[k]).name@ == m2.graph.initializers@[k].name@
        && m1.graph.initializers@[k].dtype == m2.graph.initializers@[k].dtype
        && m1.graph.initializers@[k].dims@ == m2.graph.initializers@[k].dims@ by {
        assert(g.initializer_entry(m1.graph.initializers@[k], c[k], crate::assemble::table_name(tbl, c[k]), w1,
            crate::assemble::payloads(g, c.subrange(0, k))));
        assert(g.initializer_entry(m2.graph.initializers@[k], c[k], crate::assemble::table_name(tbl, c[k]), w2,
            crate::assemble::payloads(g, c.subrange(0, k))));
    }
}

/// A value read by several nodes is listed once among the reachable values
/// and every node that reads it refers to it by the same name.
pub proof fn lemma_shared_value_one_name(
    g: Graph,
    layout: Layout,
    inputs: Seq<usize>,
    outs: Seq<(String, usize)>,
    strategy: WeightStorageStrategy,
    m: ModelProto,
    k1: int,
    j1: int,
    k2: int,
    j2: int,
)
    requires
        layout.built(g, inputs, outs, strategy, m),
        0 <= k1 < layout.nodes_view().len(),
        0 <= k2 < layout.nodes_view().len(),
        0 <= j1 < g.nds()[layout.nodes_view()[k1] as int].inputs@.len(),
        0 <= j2 < g.nds()[layout.nodes_view()[k2] as int].inputs@.len(),
        g.nds()[layout.nodes_view()[k1] as int].inputs@[j1] == g.nds()[layout.nodes_view()[k2] as int].inputs@[j2],
    ensures
        m.graph.nodes@[k1].inputs@[j1]@ == m.graph.nodes@[k2].inputs@[j2]@,
        layout.order_view().no_duplicates(),
{
    let w = choose|w: WeightOutputManager| #[trigger] g.assembled_with(inputs, outs, strategy, m, layout.names_view(), layout.order_view(), layout.nodes_view(), w);
    let reached = g.reachable(out_handles(outs).to_set());
    let hs = layout.nodes_view();
    assert(g.node_entry(m.graph.nodes@[k1], g.nds()[hs[k1] as int], layout.names_view(), reached));
    assert(g.node_entry(m.graph.nodes@[k2], g.nds()[hs[k2] as int], layout.names_view(), reached));
}

/// A value that is not a root and that no reachable value reads through its
/// producer is not reachable: an output of a node that nothing downstream
/// consumes stays out of the value set.
pub proof fn lemma_unconsumed_value_unreached(g: Graph, roots: Set<usize>, w: usize)
    requires
        !roots.contains(w),
        forall|v: usize| g.reachable(roots).contains(v) ==> !#[trigger] g.feeds(v, w),
    ensures
        !g.reachable(roots).contains(w),
{
    let r = g.reachable(roots);
    let rest = r.remove(w);
    assert(g.closed_under(rest)) by {
        assert forall|v: usize, u: usize| rest.contains(v) && #[trigger] g.feeds(v, u) implies rest.contains(u) by {
            assert forall|s: Set<usize>| #[trigger] g.closed_under(s) && roots.subset_of(s) implies s.contains(u) by {
                assert(s.contains(v));
            }
        }
    }
    assert(roots.subset_of(rest)) by {
        assert forall|x: usize| roots.contains(x) implies rest.contains(x) by {
            assert forall|s: Set<usize>| #[trigger] g.closed_under(s) && roots.subset_of(s) implies s.contains(x) by {}
        }
    }
    if r.contains(w) {
        assert(rest.contains(w));
    }
}

} // verus!
