use vstd::prelude::*;
use vstd::string::StringExecFns;
use crate::graph::{Attribute, AttributeValue, Graph, MultiOutputNodeOutput};
use crate::naming::opt_view;
use crate::tensor::{DType, Dimension, Error, copy_shape, dtype_code};

verus! {

/// Little-endian bytes of a 64-bit integer.
pub open spec fn i64_le(x: i64) -> Seq<u8> {
    Seq::new(8, |k: int| ((x as u64) >> ((8 * k) as u64)) as u8)
}

/// Little-endian bytes of a list of 64-bit integers, one after another.
pub open spec fn i64s_le(xs: Seq<i64>) -> Seq<u8>
    decreases xs.len(),
{
    if xs.len() == 0 {
        Seq::empty()
    } else {
        i64s_le(xs.drop_last()) + i64_le(xs.last())
    }
}

/// Little-endian bytes of a 32-bit integer.
pub open spec fn i32_le(x: i32) -> Seq<u8> {
    Seq::new(4, |k: int| ((x as u32) >> ((8 * k) as u32)) as u8)
}

/// Encodes integers as little-endian bytes.
pub fn encode_i64s(xs: &Vec<i64>) -> (r: Vec<u8>)
    ensures
        r@ == i64s_le(xs@),
{
    let mut r: Vec<u8> = Vec::new();
    let mut i: usize = 0;
    while i < xs.len()
        invariant
            i <= xs@.len(),
            r@ == i64s_le(xs@.subrange(0, i as int)),
        decreases xs@.len() - i,
    {
        let x = xs[i] as u64;
        let ghost before = r@;
        let mut k: u64 = 0;
        while k < 8
            invariant
                k <= 8,
                x == xs@[i as int] as u64,
                r@.len() == before.len() + k,
                r@.subrange(0, before.len() as int) == before,
                forall|j: int| 0 <= j < k ==> #[trigger] r@[before.len() + j] == i64_le(xs@[i as int])[j],
            decreases 8 - k,
        {
            r.push((x >> (8 * k)) as u8);
            proof {
                assert(r@.subrange(0, before.len() as int) =~= before);
            }
            k = k + 1;
        }
        proof {
            let post = xs@.subrange(0, i + 1);
            assert(post.drop_last() =~= xs@.subrange(0, i as int));
            let want = before + i64_le(xs@[i as int]);
            assert forall|j: int| 0 <= j < r@.len() implies r@[j] == want[j] by {
                if j < before.len() {
                    assert(r@.subrange(0, before.len() as int)[j] == r@[j]);
                } else {
                    assert(r@[before.len() + (j - before.len())] == i64_le(xs@[i as int])[j - before.len()]);
                }
            }
            assert(r@ =~= want);
        }
        i = i + 1;
    }
    assert(xs@.subrange(0, xs@.len() as int) =~= xs@);
    r
}

/// Encodes one 32-bit integer as little-endian bytes.
pub fn encode_i32(x: i32) -> (r: Vec<u8>)
    ensures
        r@ == i32_le(x),
{
    let u = x as u32;
    let mut r: Vec<u8> = Vec::new();
    let mut k: u32 = 0;
    while k < 4
        invariant
            k <= 4,
            u == x as u32,
            r@.len() == k,
            forall|j: int| 0 <= j < k ==> #[trigger] r@[j] == i32_le(x)[j],
        decreases 4 - k,
    {
        r.push((u >> (8 * k)) as u8);
        k = k + 1;
    }
    assert(r@ =~= i32_le(x));
    r
}

/// `a` followed by `b`.
fn joined(a: &String, b: &str) -> (r: String)
    ensures
        r@ == a@ + b@,
{
    a.clone().concat(b)
}

/// `g1` is `g0` with `nv` values and `nn` nodes added after its own.
pub open spec fn extends(g0: Graph, g1: Graph, nv: nat, nn: nat) -> bool {
    &&& g1.wf()
    &&& g1.vals().len() == g0.vals().len() + nv
    &&& g1.nds().len() == g0.nds().len() + nn
    &&& forall|v: int| 0 <= v < g0.vals().len() ==> #[trigger] g1.vals()[v] == g0.vals()[v]
    &&& forall|n: int| 0 <= n < g0.nds().len() ==> #[trigger] g1.nds()[n] == g0.nds()[n]
}

/// Value `v` of `g` is an unnamed constant with these bytes.
pub open spec fn constant_at(g: Graph, v: int, dtype: DType, shape: Seq<Dimension>, bytes: Seq<u8>) -> bool {
    &&& g.vals()[v].dtype == dtype
    &&& g.vals()[v].shape@ == shape
    &&& g.vals()[v].name is None
    &&& g.vals()[v].producer is None
    &&& g.vals()[v].data is Some
    &&& g.vals()[v].data->Some_0@ == bytes
}

/// Node `n` of `g` runs `op` under `name` on `ins`, and its one output is
/// value `out`, of type `dtype` and shape `shape`.
pub open spec fn op_at(g: Graph, n: int, op: Seq<char>, name: Option<Seq<char>>, ins: Seq<usize>, out: usize, dtype: DType, shape: Seq<Dimension>) -> bool {
    &&& g.nds()[n].op_type@ == op
    &&& g.nds()[n].domain@ == "ai.onnx"@
    &&& opt_view(g.nds()[n].name) == name
    &&& g.nds()[n].inputs@ == ins
    &&& g.nds()[n].outputs@ == seq![out]
    &&& out < g.vals().len()
    &&& g.vals()[out as int].dtype == dtype
    &&& g.vals()[out as int].shape@ == shape
    &&& g.vals()[out as int].producer == Some(MultiOutputNodeOutput { node: n as usize, output_index: 0 })
}

/// The shape that a list of requested extents gives: a positive extent is
/// known, any other one is left to the runtime.
pub open spec fn requested_shape(dims: Seq<i64>) -> Seq<Dimension> {
    Seq::new(dims.len(), |i: int| if dims[i] > 0 { Dimension::Known(dims[i] as u64) } else { Dimension::Unresolved })
}

fn requested_dims(dims: &Vec<i64>) -> (r: Vec<Dimension>)
    ensures
        r@ == requested_shape(dims@),
{
    let mut r: Vec<Dimension> = Vec::new();
    let mut i: usize = 0;
    while i < dims.len()
        invariant
            i <= dims@.len(),
            r@.len() == i,
            forall|j: int| 0 <= j < i ==> #[trigger] r@[j] == requested_shape(dims@)[j],
        decreases dims@.len() - i,
    {
        if dims[i] > 0 {
            r.push(Dimension::Known(dims[i] as u64));
        } else {
            r.push(Dimension::Unresolved);
        }
        i = i + 1;
    }
    assert(r@ =~= requested_shape(dims@));
    r
}

/// Adds a node with one output and returns that output.
fn single_op(
    g: &mut Graph,
    op: &str,
    name: Option<String>,
    ins: Vec<usize>,
    attributes: Vec<Attribute>,
    dtype: DType,
    shape: Vec<Dimension>,
) -> (r: usize)
    requires
        old(g).wf(),
        forall|i: int| 0 <= i < ins@.len() ==> #[trigger] ins@[i] < old(g).num_values(),
    ensures
        extends(*old(g), *final(g), 1, 1),
        r == old(g).num_values(),
        op_at(*final(g), old(g).num_nodes() as int, op@, opt_view(name), ins@, r, dtype, shape@),
        final(g).nds()[old(g).num_nodes() as int].attributes == attributes,
{
    let types = one((dtype, shape));
    let ghost ins_v = ins@;
    let res = g.add_node(op.to_owned(), "ai.onnx".to_owned(), name, ins, attributes, &types);
    match res {
        Ok(outs) => {
            proof {
                assert(outs@ =~= seq![outs@[0]]);
            }
            outs[0]
        },
        Err(_) => {
            proof {
                let i = choose|i: int| 0 <= i < ins_v.len() && ins_v[i] >= old(g).num_values();
            }
            0
        },
    }
}

/// Adds a constant and a node reading `input` and that constant; the node's
/// one output has the type of `input` and shape `out_shape`.
fn constant_op(g: &mut Graph, op: &str, input: usize, bytes: Vec<u8>, cdtype: DType, cshape: Vec<Dimension>, out_shape: Vec<Dimension>) -> (r: usize)
    requires
        old(g).wf(),
        input < old(g).num_values(),
    ensures
        extends(*old(g), *final(g), 2, 1),
        constant_at(*final(g), old(g).num_values() as int, cdtype, cshape@, bytes@),
        r == old(g).num_values() + 1,
        op_at(*final(g), old(g).num_nodes() as int, op@, None, seq![input, old(g).num_values() as usize], r,
            old(g).vals()[input as int].dtype, out_shape@),
{
    let dtype = g.values[input].dtype;
    let c = g.add_constant(None, cdtype, cshape, bytes);
    let ghost mid = *g;
    let r = single_op(g, op, None, two(input, c), Vec::new(), dtype, out_shape);
    proof {
        assert(final(g).vals()[c as int] == mid.vals()[c as int]);
    }
    r
}

/// A list of one element.
fn one<T>(x: T) -> (r: Vec<T>)
    ensures
        r@ == seq![x],
{
    let mut r: Vec<T> = Vec::new();
    r.push(x);
    assert(r@ =~= seq![x]);
    r
}

/// A list of two elements.
fn two<T>(x: T, y: T) -> (r: Vec<T>)
    ensures
        r@ == seq![x, y],
{
    let mut r: Vec<T> = Vec::new();
    r.push(x);
    r.push(y);
    assert(r@ =~= seq![x, y]);
    r
}

/// The position that `dim` names among `rank + 1` positions, counting from
/// the end where it is negative.
pub open spec fn insert_axis(dim: i64, rank: nat) -> int {
    if dim >= 0 { dim as int } else { dim + rank + 1 }
}

/// The position that `dim` names among `rank` positions, counting from the
/// end where it is negative.
pub open spec fn existing_axis(dim: i64, rank: nat) -> int {
    if dim >= 0 { dim as int } else { dim + rank }
}

/// Reshapes `input` to the extents `dims` (a `Reshape` node whose second
/// input is a constant holding `dims`).
pub fn reshape(g: &mut Graph, input: usize, dims: Vec<i64>) -> (r: Result<usize, Error>)
    requires
        old(g).wf(),
    ensures
        input >= old(g).num_values() ==> r is Err && r->Err_0 is InvalidInputError && *final(g) == *old(g),
        input < old(g).num_values() ==> r is Ok && ({
            let n = old(g).num_values();
            &&& r->Ok_0 == n + 1
            &&& extends(*old(g), *final(g), 2, 1)
            &&& constant_at(*final(g), n as int, DType::I64, seq![Dimension::Known(dims@.len() as u64)], i64s_le(dims@))
            &&& op_at(*final(g), old(g).num_nodes() as int, "Reshape"@, None, seq![input, n as usize], r->Ok_0,
                old(g).vals()[input as int].dtype, requested_shape(dims@))
        }),
{
    if input >= g.value_count() {
        return Err(Error::InvalidInputError);
    }
    let bytes = encode_i64s(&dims);
    let out_shape = requested_dims(&dims);
    let len = dims.len() as u64;
    Ok(constant_op(g, "Reshape", input, bytes, DType::I64, one(Dimension::Known(len)), out_shape))
}

/// Broadcasts `input` to the extents `dims` (an `Expand` node whose second
/// input is a constant holding `dims`).
pub fn expand(g: &mut Graph, input: usize, dims: Vec<i64>) -> (r: Result<usize, Error>)
    requires
        old(g).wf(),
    ensures
        input >= old(g).num_values() ==> r is Err && r->Err_0 is InvalidInputError && *final(g) == *old(g),
        input < old(g).num_values() ==> r is Ok && ({
            let n = old(g).num_values();
            &&& r->Ok_0 == n + 1
            &&& extends(*old(g), *final(g), 2, 1)
            &&& constant_at(*final(g), n as int, DType::I64, seq![Dimension::Known(dims@.len() as u64)], i64s_le(dims@))
            &&& op_at(*final(g), old(g).num_nodes() as int, "Expand"@, None, seq![input, n as usize], r->Ok_0,
                old(g).vals()[input as int].dtype, requested_shape(dims@))
        }),
{
    if input >= g.value_count() {
        return Err(Error::InvalidInputError);
    }
    let bytes = encode_i64s(&dims);
    let out_shape = requested_dims(&dims);
    let len = dims.len() as u64;
    Ok(constant_op(g, "Expand", input, bytes, DType::I64, one(Dimension::Known(len)), out_shape))
}

/// Inserts an extent of one at position `dim` of `input` (an `Unsqueeze` node
/// whose second input is a constant holding `dim`). Fails with
/// `InvalidInputError` where `input` names no value or `dim` names no position.
pub fn unsqueeze(g: &mut Graph, input: usize, dim: i64) -> (r: Result<usize, Error>)
    requires
        old(g).wf(),
    ensures
        ({
            let ok = input < old(g).num_values() && 0 <= insert_axis(dim, old(g).vals()[input as int].shape@.len())
                <= old(g).vals()[input as int].shape@.len();
            &&& !ok ==> r is Err && r->Err_0 is InvalidInputError && *final(g) == *old(g)
            &&& ok ==> r is Ok && ({
                let n = old(g).num_values();
                let s = old(g).vals()[input as int].shape@;
                &&& r->Ok_0 == n + 1
                &&& extends(*old(g), *final(g), 2, 1)
                &&& constant_at(*final(g), n as int, DType::I64, seq![Dimension::Known(1)], i64s_le(seq![dim]))
                &&& op_at(*final(g), old(g).num_nodes() as int, "Unsqueeze"@, None, seq![input, n as usize], r->Ok_0,
                    old(g).vals()[input as int].dtype, s.insert(insert_axis(dim, s.len()), Dimension::Known(1)))
            })
        }),
{
    if input >= g.value_count() {
        return Err(Error::InvalidInputError);
    }
    let rank = g.values[input].shape.len();
    let axis: i128 = if dim >= 0 { dim as i128 } else { dim as i128 + rank as i128 + 1 };
    if axis < 0 || axis > rank as i128 {
        return Err(Error::InvalidInputError);
    }
    let mut out_shape = copy_shape(&g.values[input].shape);
    out_shape.insert(axis as usize, Dimension::Known(1));
    let ds = one(dim);
    let bytes = encode_i64s(&ds);
    Ok(constant_op(g, "Unsqueeze", input, bytes, DType::I64, one(Dimension::Known(1)), out_shape))
}

/// Removes position `dim` of `input` (a `Squeeze` node whose second input is
/// a constant holding `dim`). Fails with `InvalidInputError` where `input`
/// names no value or `dim` names no position.
pub fn squeeze(g: &mut Graph, input: usize, dim: i64) -> (r: Result<usize, Error>)
    requires
        old(g).wf(),
    ensures
        ({
            let ok = input < old(g).num_values() && 0 <= existing_axis(dim, old(g).vals()[input as int].shape@.len())
                < old(g).vals()[input as int].shape@.len();
            &&& !ok ==> r is Err && r->Err_0 is InvalidInputError && *final(g) == *old(g)
            &&& ok ==> r is Ok && ({
                let n = old(g).num_values();
                let s = old(g).vals()[input as int].shape@;
                &&& r->Ok_0 == n + 1
                &&& extends(*old(g), *final(g), 2, 1)
                &&& constant_at(*final(g), n as int, DType::I64, seq![Dimension::Known(1)], i64s_le(seq![dim]))
                &&& op_at(*final(g), old(g).num_nodes() as int, "Squeeze"@, None, seq![input, n as usize], r->Ok_0,
                    old(g).vals()[input as int].dtype, s.remove(existing_axis(dim, s.len())))
            })
        }),
{
    if input >= g.value_count() {
        return Err(Error::InvalidInputError);
    }
    let rank = g.values[input].shape.len();
    let axis: i128 = if dim >= 0 { dim as i128 } else { dim as i128 + rank as i128 };
    if axis < 0 || axis >= rank as i128 {
        return Err(Error::InvalidInputError);
    }
    let mut out_shape = copy_shape(&g.values[input].shape);
    out_shape.remove(axis as usize);
    let ds = one(dim);
    let bytes = encode_i64s(&ds);
    Ok(constant_op(g, "Squeeze", input, bytes, DType::I64, one(Dimension::Known(1)), out_shape))
}

/// Running sum of `input` along `axis` (a `CumSum` node whose second input is
/// a constant holding `axis`).
pub fn cumsum(g: &mut Graph, input: usize, axis: i32) -> (r: Result<usize, Error>)
    requires
        old(g).wf(),
    ensures
        input >= old(g).num_values() ==> r is Err && r->Err_0 is InvalidInputError && *final(g) == *old(g),
        input < old(g).num_values() ==> r is Ok && ({
            let n = old(g).num_values();
            &&& r->Ok_0 == n + 1
            &&& extends(*old(g), *final(g), 2, 1)
            &&& constant_at(*final(g), n as int, DType::I32, seq![Dimension::Known(1)], i32_le(axis))
            &&& op_at(*final(g), old(g).num_nodes() as int, "CumSum"@, None, seq![input, n as usize], r->Ok_0,
                old(g).vals()[input as int].dtype, old(g).vals()[input as int].shape@)
        }),
{
    if input >= g.value_count() {
        return Err(Error::InvalidInputError);
    }
    let bytes = encode_i32(axis);
    let out_shape = copy_shape(&g.values[input].shape);
    Ok(constant_op(g, "CumSum", input, bytes, DType::I32, one(Dimension::Known(1)), out_shape))
}

/// Divides `input` by the integer `scalar` (a `Div` node whose second input
/// is a one-element constant).
pub fn div_scalar(g: &mut Graph, input: usize, scalar: i64) -> (r: Result<usize, Error>)
    requires
        old(g).wf(),
    ensures
        input >= old(g).num_values() ==> r is Err && r->Err_0 is InvalidInputError && *final(g) == *old(g),
        input < old(g).num_values() ==> r is Ok && ({
            let n = old(g).num_values();
            &&& r->Ok_0 == n + 1
            &&& extends(*old(g), *final(g), 2, 1)
            &&& constant_at(*final(g), n as int, DType::I64, seq![Dimension::Known(1)], i64s_le(seq![scalar]))
            &&& op_at(*final(g), old(g).num_nodes() as int, "Div"@, None, seq![input, n as usize], r->Ok_0,
                old(g).vals()[input as int].dtype, old(g).vals()[input as int].shape@)
        }),
{
    if input >= g.value_count() {
        return Err(Error::InvalidInputError);
    }
    let ds = one(scalar);
    let bytes = encode_i64s(&ds);
    let out_shape = copy_shape(&g.values[input].shape);
    Ok(constant_op(g, "Div", input, bytes, DType::I64, one(Dimension::Known(1)), out_shape))
}

/// The shape after slicing the first `k` positions of `s`: those extents are
/// left to the runtime, the others are kept.
pub open spec fn sliced_shape(s: Seq<Dimension>, k: nat) -> Seq<Dimension> {
    Seq::new(s.len(), |i: int| if i < k { Dimension::Unresolved } else { s[i] })
}

/// Slices `input` from `start` to `end` along its first positions (a `Slice`
/// node whose second and third inputs are constants holding the bounds).
/// Fails with `InvalidInputError` where `input` names no value, or the bounds
/// differ in length or outnumber the positions.
pub fn slice(g: &mut Graph, input: usize, start: Vec<i64>, end: Vec<i64>) -> (r: Result<usize, Error>)
    requires
        old(g).wf(),
    ensures
        ({
            let ok = input < old(g).num_values() && start@.len() == end@.len()
                && start@.len() <= old(g).vals()[input as int].shape@.len();
            let n = old(g).num_values();
            let k = start@.len();
            &&& !ok ==> r is Err && r->Err_0 is InvalidInputError && *final(g) == *old(g)
            &&& ok ==> r is Ok && ({
                &&& r->Ok_0 == n + 2
                &&& extends(*old(g), *final(g), 3, 1)
                &&& constant_at(*final(g), n as int, DType::I64, seq![Dimension::Known(k as u64)], i64s_le(start@))
                &&& constant_at(*final(g), (n + 1) as int, DType::I64, seq![Dimension::Known(k as u64)], i64s_le(end@))
                &&& op_at(*final(g), old(g).num_nodes() as int, "Slice"@, None, seq![input, n as usize, (n + 1) as usize], r->Ok_0,
                    old(g).vals()[input as int].dtype, sliced_shape(old(g).vals()[input as int].shape@, k))
            })
        }),
{
    if input >= g.value_count() || start.len() != end.len() || start.len() > g.values[input].shape.len() {
        return Err(Error::InvalidInputError);
    }
    let k = start.len();
    let dtype = g.values[input].dtype;
    let mut out_shape: Vec<Dimension> = Vec::new();
    let mut i: usize = 0;
    let ghost s = g.vals()[input as int].shape@;
    while i < g.values[input].shape.len()
        invariant
            g.wf(),
            input < g.num_values(),
            s == g.vals()[input as int].shape@,
            k <= s.len(),
            i <= s.len(),
            out_shape@.len() == i,
            forall|j: int| 0 <= j < i ==> #[trigger] out_shape@[j] == sliced_shape(s, k as nat)[j],
        decreases s.len() - i,
    {
        if i < k {
            out_shape.push(Dimension::Unresolved);
        } else {
            out_shape.push(g.values[input].shape[i].copy());
        }
        i = i + 1;
    }
    assert(out_shape@ =~= sliced_shape(s, k as nat));
    let b0 = encode_i64s(&start);
    let b1 = encode_i64s(&end);
    let c0 = g.add_constant(None, DType::I64, one(Dimension::Known(k as u64)), b0);
    let c1 = g.add_constant(None, DType::I64, one(Dimension::Known(k as u64)), b1);
    let ghost mid = *g;
    let r = single_op(g, "Slice", None, three(input, c0, c1), Vec::new(), dtype, out_shape);
    proof {
        assert(g.vals()[c0 as int] == mid.vals()[c0 as int]);
        assert(g.vals()[c1 as int] == mid.vals()[c1 as int]);
    }
    Ok(r)
}

/// A list of three elements.
fn three<T>(x: T, y: T, z: T) -> (r: Vec<T>)
    ensures
        r@ == seq![x, y, z],
{
    let mut r: Vec<T> = Vec::new();
    r.push(x);
    r.push(y);
    r.push(z);
    assert(r@ =~= seq![x, y, z]);
    r
}

/// `input` converted to `dtype`: `input` itself where it already has that
/// type, else the output of a new `Cast` node whose attribute `to` holds the
/// type's code.
pub fn cast(g: &mut Graph, input: usize, dtype: DType) -> (r: Result<usize, Error>)
    requires
        old(g).wf(),
    ensures
        input >= old(g).num_values() ==> r is Err && r->Err_0 is InvalidInputError && *final(g) == *old(g),
        input < old(g).num_values() && old(g).vals()[input as int].dtype == dtype ==> r == Ok::<usize, Error>(input) && *final(g) == *old(g),
        input < old(g).num_values() && old(g).vals()[input as int].dtype != dtype ==> r is Ok && ({
            let nn = old(g).num_nodes() as int;
            &&& extends(*old(g), *final(g), 1, 1)
            &&& op_at(*final(g), nn, "Cast"@, None, seq![input], r->Ok_0, dtype, old(g).vals()[input as int].shape@)
            &&& final(g).nds()[nn].attributes@.len() == 1
            &&& final(g).nds()[nn].attributes@[0].name@ == "to"@
            &&& final(g).nds()[nn].attributes@[0].value == AttributeValue::Int(dtype_code(dtype))
        }),
{
    if input >= g.value_count() {
        return Err(Error::InvalidInputError);
    }
    if g.values[input].dtype == dtype {
        return Ok(input);
    }
    let attr = Attribute { name: "to".to_owned(), value: AttributeValue::Int(dtype.onnx_code()) };
    let shape = copy_shape(&g.values[input].shape);
    Ok(single_op(g, "Cast", None, one(input), one(attr), dtype, shape))
}

/// The permutation that swaps the last two of `rank` positions.
pub open spec fn last_two_swapped(rank: nat) -> Seq<i64> {
    Seq::new(rank, |i: int| if i == rank - 2 { (rank - 1) as i64 } else if i == rank - 1 { (rank - 2) as i64 } else { i as i64 })
}

/// Swaps the last two positions of `input` (a `Transpose` node whose
/// attribute `perm` holds the permutation).
pub fn transpose(g: &mut Graph, input: usize) -> (r: usize)
    requires
        old(g).wf(),
        input < old(g).num_values(),
        2 <= old(g).vals()[input as int].shape@.len() <= i64::MAX,
    ensures
        ({
            let nn = old(g).num_nodes() as int;
            let s = old(g).vals()[input as int].shape@;
            let k = s.len();
            &&& extends(*old(g), *final(g), 1, 1)
            &&& op_at(*final(g), nn, "Transpose"@, None, seq![input], r, old(g).vals()[input as int].dtype,
                s.update(k - 2, s[k - 1]).update(k - 1, s[k - 2]))
            &&& final(g).nds()[nn].attributes@.len() == 1
            &&& final(g).nds()[nn].attributes@[0].name@ == "perm"@
            &&& final(g).nds()[nn].attributes@[0].value is Ints
            &&& final(g).nds()[nn].attributes@[0].value->Ints_0@ == last_two_swapped(k)
        }),
{
    let rank = g.values[input].shape.len();
    let mut perm: Vec<i64> = Vec::new();
    let mut i: usize = 0;
    while i < rank
        invariant
            2 <= rank <= i64::MAX,
            i <= rank,
            perm@.len() == i,
            forall|j: int| 0 <= j < i ==> #[trigger] perm@[j] == j as i64,
        decreases rank - i,
    {
        perm.push(i as i64);
        i = i + 1;
    }
    perm.set(rank - 2, (rank - 1) as i64);
    perm.set(rank - 1, (rank - 2) as i64);
    assert(perm@ =~= last_two_swapped(rank as nat));
    let mut shape = copy_shape(&g.values[input].shape);
    let a = g.values[input].shape[rank - 2].copy();
    let b = g.values[input].shape[rank - 1].copy();
    shape.set(rank - 2, b);
    shape.set(rank - 1, a);
    let dtype = g.values[input].dtype;
    let attr = Attribute { name: "perm".to_owned(), value: AttributeValue::Ints(perm) };
    single_op(g, "Transpose", None, one(input), one(attr), dtype, shape)
}

/// Bit pattern of the single-precision value 1e-5, the normalisation epsilon.
pub const RMS_EPSILON_BITS: u32 = 0x3727_c5ac;

/// Root-mean-square normalisation of `input` over its last position, scaled
/// by `weight` (an `RMSNormalization` node named `prefix`, with attributes
/// `epsilon` and `axis`).
pub fn rms_norm(g: &mut Graph, prefix: Option<String>, input: usize, weight: usize) -> (r: Result<usize, Error>)
    requires
        old(g).wf(),
    ensures
        ({
            let ok = input < old(g).num_values() && weight < old(g).num_values();
            let nn = old(g).num_nodes() as int;
            &&& !ok ==> r is Err && r->Err_0 is InvalidInputError && *final(g) == *old(g)
            &&& ok ==> r is Ok && ({
                &&& extends(*old(g), *final(g), 1, 1)
                &&& op_at(*final(g), nn, "RMSNormalization"@, opt_view(prefix), seq![input, weight], r->Ok_0,
                    old(g).vals()[input as int].dtype, old(g).vals()[input as int].shape@)
                &&& final(g).nds()[nn].attributes@.len() == 2
                &&& final(g).nds()[nn].attributes@[0].name@ == "epsilon"@
                &&& final(g).nds()[nn].attributes@[0].value == AttributeValue::FloatBits(RMS_EPSILON_BITS)
                &&& final(g).nds()[nn].attributes@[1].name@ == "axis"@
                &&& final(g).nds()[nn].attributes@[1].value == AttributeValue::Int(-1i64)
            })
        }),
{
    if input >= g.value_count() || weight >= g.value_count() {
        return Err(Error::InvalidInputError);
    }
    let eps = Attribute { name: "epsilon".to_owned(), value: AttributeValue::FloatBits(RMS_EPSILON_BITS) };
    let axis = Attribute { name: "axis".to_owned(), value: AttributeValue::Int(-1) };
    let dtype = g.values[input].dtype;
    let shape = copy_shape(&g.values[input].shape);
    Ok(single_op(g, "RMSNormalization", prefix, two(input, weight), two(eps, axis), dtype, shape))
}

/// Layer normalisation of `input` over its last position, scaled by `weight`
/// and shifted by `bias` where given (a `LayerNormalization` node named
/// `prefix`, with attributes `axis`, `epsilon` and `stash_type`). The epsilon
/// is given as the bit pattern of its single-precision value.
pub fn layer_norm(g: &mut Graph, prefix: Option<String>, input: usize, weight: usize, bias: Option<usize>, epsilon_bits: u32) -> (r: Result<usize, Error>)
    requires
        old(g).wf(),
    ensures
        ({
            let ok = input < old(g).num_values() && weight < old(g).num_values() && (bias matches Some(b) ==> b < old(g).num_values());
            let nn = old(g).num_nodes() as int;
            &&& !ok ==> r is Err && r->Err_0 is InvalidInputError && *final(g) == *old(g)
            &&& ok ==> r is Ok && ({
                &&& extends(*old(g), *final(g), 1, 1)
                &&& op_at(*final(g), nn, "LayerNormalization"@, opt_view(prefix),
                    match bias { Some(b) => seq![input, weight, b], None => seq![input, weight] }, r->Ok_0,
                    old(g).vals()[input as int].dtype, old(g).vals()[input as int].shape@)
                &&& final(g).nds()[nn].attributes@.len() == 3
                &&& final(g).nds()[nn].attributes@[0].name@ == "axis"@
                &&& final(g).nds()[nn].attributes@[0].value == AttributeValue::Int(-1i64)
                &&& final(g).nds()[nn].attributes@[1].name@ == "epsilon"@
                &&& final(g).nds()[nn].attributes@[1].value == AttributeValue::FloatBits(epsilon_bits)
                &&& final(g).nds()[nn].attributes@[2].name@ == "stash_type"@
                &&& final(g).nds()[nn].attributes@[2].value == AttributeValue::Int(1)
            })
        }),
{
    let n = g.value_count();
    if input >= n || weight >= n {
        return Err(Error::InvalidInputError);
    }
    let ins = match bias {
        Some(b) => {
            if b >= n {
                return Err(Error::InvalidInputError);
            }
            three(input, weight, b)
        },
        None => two(input, weight),
    };
    let axis = Attribute { name: "axis".to_owned(), value: AttributeValue::Int(-1) };
    let eps = Attribute { name: "epsilon".to_owned(), value: AttributeValue::FloatBits(epsilon_bits) };
    let stash = Attribute { name: "stash_type".to_owned(), value: AttributeValue::Int(1) };
    let dtype = g.values[input].dtype;
    let shape = copy_shape(&g.values[input].shape);
    Ok(single_op(g, "LayerNormalization", prefix, ins, three(axis, eps, stash), dtype, shape))
}

/// Group normalisation of `input` in `num_groups` groups, scaled by `weight`
/// and shifted by `bias` (a `GroupNormalization` node named `prefix`, with
/// attributes `epsilon` and `num_groups`). The epsilon is given as the bit
/// pattern of its single-precision value.
pub fn group_norm(g: &mut Graph, prefix: Option<String>, input: usize, weight: usize, bias: usize, epsilon_bits: u32, num_groups: i64) -> (r: Result<usize, Error>)
    requires
        old(g).wf(),
    ensures
        ({
            let ok = input < old(g).num_values() && weight < old(g).num_values() && bias < old(g).num_values();
            let nn = old(g).num_nodes() as int;
            &&& !ok ==> r is Err && r->Err_0 is InvalidInputError && *final(g) == *old(g)
            &&& ok ==> r is Ok && ({
                &&& extends(*old(g), *final(g), 1, 1)
                &&& op_at(*final(g), nn, "GroupNormalization"@, opt_view(prefix), seq![input, weight, bias], r->Ok_0,
                    old(g).vals()[input as int].dtype, old(g).vals()[input as int].shape@)
                &&& final(g).nds()[nn].attributes@.len() == 2
                &&& final(g).nds()[nn].attributes@[0].name@ == "epsilon"@
                &&& final(g).nds()[nn].attributes@[0].value == AttributeValue::FloatBits(epsilon_bits)
                &&& final(g).nds()[nn].attributes@[1].name@ == "num_groups"@
                &&& final(g).nds()[nn].attributes@[1].value == AttributeValue::Int(num_groups)
            })
        }),
{
    let n = g.value_count();
    if input >= n || weight >= n || bias >= n {
        return Err(Error::InvalidInputError);
    }
    let eps = Attribute { name: "epsilon".to_owned(), value: AttributeValue::FloatBits(epsilon_bits) };
    let groups = Attribute { name: "num_groups".to_owned(), value: AttributeValue::Int(num_groups) };
    let dtype = g.values[input].dtype;
    let shape = copy_shape(&g.values[input].shape);
    Ok(single_op(g, "GroupNormalization", prefix, three(input, weight, bias), two(eps, groups), dtype, shape))
}

/// `input` times its logistic sigmoid (a `Sigmoid` node, then a `Mul` node).
pub fn silu(g: &mut Graph, input: usize) -> (r: Result<usize, Error>)
    requires
        old(g).wf(),
    ensures
        input >= old(g).num_values() ==> r is Err && r->Err_0 is InvalidInputError && *final(g) == *old(g),
        input < old(g).num_values() ==> r is Ok && ({
            let n = old(g).num_values();
            let nn = old(g).num_nodes() as int;
            let dtype = old(g).vals()[input as int].dtype;
            let s = old(g).vals()[input as int].shape@;
            &&& r->Ok_0 == n + 1
            &&& extends(*old(g), *final(g), 2, 2)
            &&& op_at(*final(g), nn, "Sigmoid"@, None, seq![input], n as usize, dtype, s)
            &&& op_at(*final(g), nn + 1, "Mul"@, None, seq![input, n as usize], r->Ok_0, dtype, s)
        }),
{
    if input >= g.value_count() {
        return Err(Error::InvalidInputError);
    }
    let dtype = g.values[input].dtype;
    let shape = copy_shape(&g.values[input].shape);
    let shape2 = copy_shape(&g.values[input].shape);
    let sig = single_op(g, "Sigmoid", None, one(input), Vec::new(), dtype, shape);
    let ghost mid = *g;
    let r = single_op(g, "Mul", None, two(input, sig), Vec::new(), dtype, shape2);
    proof {
        assert(g.nds()[mid.num_nodes() - 1] == mid.nds()[mid.num_nodes() - 1]);
        assert(g.vals()[sig as int] == mid.vals()[sig as int]);
    }
    Ok(r)
}

/// The number of rows of a matrix of shape `w`: its first extent where it
/// has two, else left to the runtime.
pub open spec fn row_extent(w: Seq<Dimension>) -> Dimension {
    if w.len() == 2 { w[0] } else { Dimension::Unresolved }
}

/// The shape of the product of a matrix of shape `w` with a stack of
/// columns of shape `s`: the second-to-last extent becomes the rows of `w`.
pub open spec fn product_shape(s: Seq<Dimension>, w: Seq<Dimension>) -> Seq<Dimension> {
    if s.len() >= 2 { s.update(s.len() - 2, row_extent(w)) } else { s }
}

/// `prefix` followed by `suffix`.
pub open spec fn suffixed(prefix: Option<Seq<char>>, suffix: Seq<char>) -> Option<Seq<char>> {
    match prefix {
        Some(p) => Some(p + suffix),
        None => None,
    }
}

/// The shape a linear map by a weight of shape `w` gives an input of shape
/// `s`: for a matrix weight, the last extent becomes its number of rows.
pub open spec fn linear_shape(s: Seq<Dimension>, w: Seq<Dimension>) -> Seq<Dimension> {
    product_shape(s.insert(s.len() as int, Dimension::Known(1)), w).remove(s.len() as int)
}

/// The name of the part `name` under `prefix`: `<prefix>.<name>`, or `name`.
pub open spec fn sub_name(prefix: Option<String>, name: Seq<char>) -> Seq<char> {
    match prefix {
        Some(p) => p@ + "."@ + name,
        None => name,
    }
}

/// The layers of a linear map built at `n` values and `nn` nodes in `g`:
/// `input` gains a trailing extent of one, `weight` multiplies it (a node
/// named `prefix`), the extent is removed again, and a bias is added where
/// one is given (a node named `<prefix>.bias`).
pub open spec fn linear_layers(g: Graph, n: int, nn: int, prefix: Option<Seq<char>>, input: usize, weight: usize, bias: Option<usize>,
    dtype: DType, s: Seq<Dimension>, ws: Seq<Dimension>, r: usize) -> bool {
    let k = s.len();
    let s1 = s.insert(k as int, Dimension::Known(1));
    let s2 = product_shape(s1, ws);
    let s3 = s2.remove(k as int);
    &&& constant_at(g, n, DType::I64, seq![Dimension::Known(1)], i64s_le(seq![k as i64]))
    &&& op_at(g, nn, "Unsqueeze"@, None, seq![input, n as usize], (n + 1) as usize, dtype, s1)
    &&& op_at(g, nn + 1, "MatMul"@, prefix, seq![weight, (n + 1) as usize], (n + 2) as usize, dtype, s2)
    &&& constant_at(g, n + 3, DType::I64, seq![Dimension::Known(1)], i64s_le(seq![k as i64]))
    &&& op_at(g, nn + 2, "Squeeze"@, None, seq![(n + 2) as usize, (n + 3) as usize], (n + 4) as usize, dtype, s3)
    &&& match bias {
        None => r == n + 4,
        Some(b) => r == n + 5 && op_at(g, nn + 3, "Add"@, suffixed(prefix, ".bias"@), seq![(n + 4) as usize, b], r, dtype, s3),
    }
}

/// A linear map of `input` by `weight`, plus `bias` where given; a bias is
/// named after `prefix`, so it needs one. Fails with `InvalidInputError` where
/// a handle names no value or the rank of `input` does not fit an `i64`.
pub fn linear(g: &mut Graph, prefix: Option<String>, input: usize, weight: usize, bias: Option<usize>) -> (r: Result<usize, Error>)
    requires
        old(g).wf(),
        bias is Some ==> prefix is Some,
    ensures
        ({
            let n = old(g).num_values();
            let ok = input < n && weight < n && (bias matches Some(b) ==> b < n)
                && old(g).vals()[input as int].shape@.len() < i64::MAX;
            &&& !ok ==> r is Err && r->Err_0 is InvalidInputError && *final(g) == *old(g)
            &&& ok ==> r is Ok && extends(*old(g), *final(g), if bias is Some { 6 } else { 5 }, if bias is Some { 4 } else { 3 })
                && linear_layers(*final(g), n as int, old(g).num_nodes() as int, opt_view(prefix), input, weight, bias,
                    old(g).vals()[input as int].dtype, old(g).vals()[input as int].shape@, old(g).vals()[weight as int].shape@, r->Ok_0)
        }),
{
    let n = g.value_count();
    if input >= n || weight >= n {
        return Err(Error::InvalidInputError);
    }
    match bias {
        Some(b) => {
            if b >= n {
                return Err(Error::InvalidInputError);
            }
        },
        None => {},
    }
    let rank = g.values[input].shape.len();
    if rank as u64 >= 0x7fff_ffff_ffff_ffffu64 {
        return Err(Error::InvalidInputError);
    }
    let ghost g0 = *g;
    let ghost s = g.vals()[input as int].shape@;
    let dtype = g.values[input].dtype;
    let x1 = match unsqueeze(g, input, rank as i64) {
        Ok(x) => x,
        Err(e) => {
            return Err(e);
        },
    };
    let ghost g1 = *g;
    let mat_shape_src = copy_shape(&g.values[x1].shape);
    let mut mat_shape = mat_shape_src;
    if mat_shape.len() >= 2 {
        let at = mat_shape.len() - 2;
        let row = if g.values[weight].shape.len() == 2 {
            g.values[weight].shape[0].copy()
        } else {
            Dimension::Unresolved
        };
        mat_shape.set(at, row);
    }
    let bias_name = match &prefix {
        Some(p) => Some(joined(p, ".bias")),
        None => None,
    };
    let mat = single_op(g, "MatMul", prefix, two(weight, x1), Vec::new(), dtype, mat_shape);
    let ghost g2 = *g;
    let sq = match squeeze(g, mat, rank as i64) {
        Ok(x) => x,
        Err(e) => {
            return Err(e);
        },
    };
    let ghost g3 = *g;
    let r = match bias {
        Some(b) => {
            let sq_shape = copy_shape(&g.values[sq].shape);
            single_op(g, "Add", bias_name, two(sq, b), Vec::new(), dtype, sq_shape)
        },
        None => sq,
    };
    proof {
        let nn = g0.num_nodes() as int;
        let ni = n as int;
        assert(g.vals()[ni] == g1.vals()[ni]);
        assert(g.vals()[ni + 1] == g1.vals()[ni + 1]);
        assert(g.nds()[nn] == g1.nds()[nn]);
        assert(g.vals()[ni + 2] == g2.vals()[ni + 2]);
        assert(g.nds()[nn + 1] == g2.nds()[nn + 1]);
        assert(g.vals()[ni + 3] == g3.vals()[ni + 3]);
        assert(g.vals()[ni + 4] == g3.vals()[ni + 4]);
        assert(g.nds()[nn + 2] == g3.nds()[nn + 2]);
    }
    Ok(r)
}

/// `prefix` joined to `name` with a dot, or `name` alone.
fn sub_prefix(prefix: &Option<String>, name: &str) -> (r: Option<String>)
    ensures
        opt_view(r) == Some(sub_name(*prefix, name@)),
{
    match prefix {
        Some(p) => {
            let dotted = joined(p, ".");
            Some(joined(&dotted, name))
        },
        None => Some(name.to_owned()),
    }
}

proof fn lemma_extends_trans(g0: Graph, g1: Graph, g2: Graph, a: nat, b: nat, c: nat, d: nat)
    requires
        extends(g0, g1, a, b),
        extends(g1, g2, c, d),
    ensures
        extends(g0, g2, a + c, b + d),
{
    assert forall|v: int| 0 <= v < g0.vals().len() implies #[trigger] g2.vals()[v] == g0.vals()[v] by {
        assert(g2.vals()[v] == g1.vals()[v]);
    }
    assert forall|m: int| 0 <= m < g0.nds().len() implies #[trigger] g2.nds()[m] == g0.nds()[m] by {
        assert(g2.nds()[m] == g1.nds()[m]);
    }
}

proof fn lemma_op_kept(g0: Graph, g1: Graph, a: nat, b: nat, n: int, op: Seq<char>, name: Option<Seq<char>>, ins: Seq<usize>,
    out: usize, dtype: DType, shape: Seq<Dimension>)
    requires
        extends(g0, g1, a, b),
        0 <= n < g0.nds().len(),
        op_at(g0, n, op, name, ins, out, dtype, shape),
    ensures
        op_at(g1, n, op, name, ins, out, dtype, shape),
{
    assert(g1.nds()[n] == g0.nds()[n]);
    assert(g1.vals()[out as int] == g0.vals()[out as int]);
}

proof fn lemma_layers_kept(g0: Graph, g1: Graph, a: nat, b: nat, n: int, nn: int, prefix: Option<Seq<char>>, input: usize, weight: usize,
    bias: Option<usize>, dtype: DType, s: Seq<Dimension>, ws: Seq<Dimension>, r: usize)
    requires
        extends(g0, g1, a, b),
        0 <= n,
        0 <= nn,
        n + (if bias is Some { 6int } else { 5int }) <= g0.vals().len(),
        nn + (if bias is Some { 4int } else { 3int }) <= g0.nds().len(),
        linear_layers(g0, n, nn, prefix, input, weight, bias, dtype, s, ws, r),
    ensures
        linear_layers(g1, n, nn, prefix, input, weight, bias, dtype, s, ws, r),
{
    let k = s.len();
    let s1 = s.insert(k as int, Dimension::Known(1));
    let s2 = product_shape(s1, ws);
    let s3 = s2.remove(k as int);
    assert(g1.vals()[n] == g0.vals()[n]);
    assert(g1.vals()[n + 3] == g0.vals()[n + 3]);
    lemma_op_kept(g0, g1, a, b, nn, "Unsqueeze"@, None, seq![input, n as usize], (n + 1) as usize, dtype, s1);
    lemma_op_kept(g0, g1, a, b, nn + 1, "MatMul"@, prefix, seq![weight, (n + 1) as usize], (n + 2) as usize, dtype, s2);
    lemma_op_kept(g0, g1, a, b, nn + 2, "Squeeze"@, None, seq![(n + 2) as usize, (n + 3) as usize], (n + 4) as usize, dtype, s3);
    if let Some(bb) = bias {
        lemma_op_kept(g0, g1, a, b, nn + 3, "Add"@, suffixed(prefix, ".bias"@), seq![(n + 4) as usize, bb], r, dtype, s3);
    }
}

/// Gated linear unit with the SiLU gate: `silu(inner(input)) * outer(input)`,
/// where `inner` and `outer` are linear maps named `<prefix>.linear_inner`
/// and `<prefix>.linear_outer`. Fails with `InvalidInputError` where a handle
/// names no value or the rank of `input` does not fit an `i64`.
pub fn swiglu(
    g: &mut Graph,
    prefix: Option<String>,
    input: usize,
    inner_weight: usize,
    inner_bias: Option<usize>,
    outer_weight: usize,
    outer_bias: Option<usize>,
) -> (r: Result<usize, Error>)
    requires
        old(g).wf(),
    ensures
        ({
            let n = old(g).num_values();
            let ok = input < n && inner_weight < n && outer_weight < n && (inner_bias matches Some(b) ==> b < n)
                && (outer_bias matches Some(b) ==> b < n) && old(g).vals()[input as int].shape@.len() < i64::MAX;
            &&& !ok ==> r is Err && r->Err_0 is InvalidInputError && *final(g) == *old(g)
            &&& ok ==> r is Ok && ({
                let nn = old(g).num_nodes() as int;
                let dtype = old(g).vals()[input as int].dtype;
                let s = old(g).vals()[input as int].shape@;
                let wi = old(g).vals()[inner_weight as int].shape@;
                let wo = old(g).vals()[outer_weight as int].shape@;
                let vi: int = if inner_bias is Some { 6 } else { 5 };
                let ni: int = if inner_bias is Some { 4 } else { 3 };
                let x: int = n + vi - 1;
                let m = n + vi + 2;
                let mn = nn + ni + 2;
                let x2: int = m + (if outer_bias is Some { 6int } else { 5int }) - 1;
                let last = mn + (if outer_bias is Some { 4int } else { 3int });
                &&& extends(*old(g), *final(g), (x2 + 2 - n) as nat, (last + 1 - nn) as nat)
                &&& linear_layers(*final(g), n as int, nn, Some(sub_name(prefix, "linear_inner"@)), input, inner_weight, inner_bias,
                    dtype, s, wi, x as usize)
                &&& op_at(*final(g), nn + ni, "Sigmoid"@, None, seq![x as usize], (n + vi) as usize, dtype, linear_shape(s, wi))
                &&& op_at(*final(g), nn + ni + 1, "Mul"@, None, seq![x as usize, (n + vi) as usize], (n + vi + 1) as usize, dtype, linear_shape(s, wi))
                &&& linear_layers(*final(g), m, mn, Some(sub_name(prefix, "linear_outer"@)), input, outer_weight, outer_bias,
                    dtype, s, wo, x2 as usize)
                &&& op_at(*final(g), last, "Mul"@, None, seq![(n + vi + 1) as usize, x2 as usize], r->Ok_0, dtype, linear_shape(s, wo))
            })
        }),
{
    let n = g.value_count();
    if input >= n || inner_weight >= n || outer_weight >= n || g.values[input].shape.len() as u64 >= 0x7fff_ffff_ffff_ffffu64 {
        return Err(Error::InvalidInputError);
    }
    match inner_bias {
        Some(b) => {
            if b >= n {
                return Err(Error::InvalidInputError);
            }
        },
        None => {},
    }
    match outer_bias {
        Some(b) => {
            if b >= n {
                return Err(Error::InvalidInputError);
            }
        },
        None => {},
    }
    let dtype = g.values[input].dtype;
    let inner_prefix = sub_prefix(&prefix, "linear_inner");
    let outer_prefix = sub_prefix(&prefix, "linear_outer");
    let ghost g0 = *g;
    let x = match linear(g, inner_prefix, input, inner_weight, inner_bias) {
        Ok(x) => x,
        Err(e) => {
            return Err(e);
        },
    };
    let ghost g1 = *g;
    let y = match silu(g, x) {
        Ok(y) => y,
        Err(e) => {
            return Err(e);
        },
    };
    let ghost g2 = *g;
    proof {
        assert(g2.vals()[input as int] == g0.vals()[input as int]);
        assert(g2.vals()[outer_weight as int] == g0.vals()[outer_weight as int]);
    }
    let x2 = match linear(g, outer_prefix, input, outer_weight, outer_bias) {
        Ok(x) => x,
        Err(e) => {
            return Err(e);
        },
    };
    let ghost g3 = *g;
    let shape = copy_shape(&g.values[x2].shape);
    let out = single_op(g, "Mul", None, two(y, x2), Vec::new(), dtype, shape);
    proof {
        let g4 = *g;
        let s0 = g0.vals()[input as int].shape@;
        let wi = g0.vals()[inner_weight as int].shape@;
        let wo = g0.vals()[outer_weight as int].shape@;
        let nn = g0.num_nodes() as int;
        let vi: int = if inner_bias is Some { 6 } else { 5 };
        let ni: int = if inner_bias is Some { 4 } else { 3 };
        let vo: int = if outer_bias is Some { 6 } else { 5 };
        let no: int = if outer_bias is Some { 4 } else { 3 };
        lemma_extends_trans(g0, g1, g2, vi as nat, ni as nat, 2, 2);
        lemma_extends_trans(g0, g2, g3, (vi + 2) as nat, (ni + 2) as nat, vo as nat, no as nat);
        lemma_extends_trans(g0, g3, g4, (vi + 2 + vo) as nat, (ni + 2 + no) as nat, 1, 1);
        lemma_extends_trans(g1, g2, g3, 2, 2, vo as nat, no as nat);
        lemma_extends_trans(g1, g3, g4, (2 + vo) as nat, (2 + no) as nat, 1, 1);
        lemma_extends_trans(g2, g3, g4, vo as nat, no as nat, 1, 1);
        lemma_layers_kept(g1, g4, (3 + vo) as nat, (3 + no) as nat, n as int, nn, Some(sub_name(prefix, "linear_inner"@)), input,
            inner_weight, inner_bias, dtype, s0, wi, x);
        assert(g1.vals()[x as int].shape@ == linear_shape(s0, wi));
        lemma_op_kept(g2, g4, (vo + 1) as nat, (no + 1) as nat, nn + ni, "Sigmoid"@, None, seq![x], (n + vi) as usize, dtype, linear_shape(s0, wi));
        lemma_op_kept(g2, g4, (vo + 1) as nat, (no + 1) as nat, nn + ni + 1, "Mul"@, None, seq![x, (n + vi) as usize], y, dtype, linear_shape(s0, wi));
        lemma_layers_kept(g3, g4, 1, 1, n + vi + 2, nn + ni + 2, Some(sub_name(prefix, "linear_outer"@)), input,
            outer_weight, outer_bias, dtype, s0, wo, x2);
        assert(g3.vals()[x2 as int].shape@ == linear_shape(s0, wo));
    }
    Ok(out)
}

} // verus!
