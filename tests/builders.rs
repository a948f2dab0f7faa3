use onnx_graph::graph::{AttributeValue, Graph};
use onnx_graph::pytorch::{cast, cumsum, div_scalar, encode_i64s, expand, group_norm, layer_norm, linear, reshape, rms_norm, silu, slice, squeeze, swiglu, transpose, unsqueeze, RMS_EPSILON_BITS};
use onnx_graph::tensor::{DType, Dimension, Error};

fn known(dims: &[u64]) -> Vec<Dimension> {
    dims.iter().map(|d| Dimension::Known(*d)).collect()
}

fn producer_input(g: &Graph, v: usize, i: usize) -> usize {
    let p = g.value(v).producer.unwrap();
    g.node(p.node).inputs[i]
}

fn producer_op(g: &Graph, v: usize) -> String {
    let p = g.value(v).producer.unwrap();
    g.node(p.node).op_type.clone()
}

#[test]
fn little_endian_encoding() {
    assert_eq!(encode_i64s(&vec![1, -1]), vec![1, 0, 0, 0, 0, 0, 0, 0, 255, 255, 255, 255, 255, 255, 255, 255]);
    assert_eq!(encode_i64s(&vec![0x0102]), vec![2, 1, 0, 0, 0, 0, 0, 0]);
}

#[test]
fn reshape_adds_constant_and_node() {
    let mut g = Graph::new();
    let x = g.add_input("x".to_string(), DType::F32, known(&[2, 3]));
    let r = reshape(&mut g, x, vec![3, -1]).unwrap();
    assert_eq!(g.value_count(), 3);
    assert_eq!(g.node_count(), 1);
    let c = g.value(1);
    assert_eq!(c.dtype, DType::I64);
    assert_eq!(c.shape, known(&[2]));
    assert_eq!(c.data.clone().unwrap(), encode_i64s(&vec![3, -1]));
    assert_eq!(g.node(0).op_type, "Reshape");
    assert_eq!(g.node(0).inputs, vec![x, 1]);
    assert_eq!(g.value(r).shape, vec![Dimension::Known(3), Dimension::Unresolved]);
    assert!(matches!(reshape(&mut g, 17, vec![1]), Err(Error::InvalidInputError)));
}

#[test]
fn expand_uses_requested_extents() {
    let mut g = Graph::new();
    let x = g.add_input("x".to_string(), DType::F32, known(&[1]));
    let r = expand(&mut g, x, vec![4, 0]).unwrap();
    assert_eq!(producer_op(&g, r), "Expand");
    assert_eq!(g.value(r).shape, vec![Dimension::Known(4), Dimension::Unresolved]);
}

#[test]
fn unsqueeze_and_squeeze_positions() {
    let mut g = Graph::new();
    let x = g.add_input("x".to_string(), DType::F32, known(&[2, 3]));
    let u = unsqueeze(&mut g, x, -1).unwrap();
    assert_eq!(g.value(u).shape, known(&[2, 3, 1]));
    let u0 = unsqueeze(&mut g, x, 0).unwrap();
    assert_eq!(g.value(u0).shape, known(&[1, 2, 3]));
    assert!(matches!(unsqueeze(&mut g, x, 3), Err(Error::InvalidInputError)));
    let s = squeeze(&mut g, u, -1).unwrap();
    assert_eq!(g.value(s).shape, known(&[2, 3]));
    assert!(matches!(squeeze(&mut g, x, 2), Err(Error::InvalidInputError)));
    assert_eq!(producer_op(&g, s), "Squeeze");
}

#[test]
fn slice_bounds() {
    let mut g = Graph::new();
    let x = g.add_input("x".to_string(), DType::F32, known(&[4, 5]));
    let s = slice(&mut g, x, vec![1], vec![3]).unwrap();
    assert_eq!(g.value(s).shape, vec![Dimension::Unresolved, Dimension::Known(5)]);
    assert_eq!(g.node(0).inputs.len(), 3);
    assert!(matches!(slice(&mut g, x, vec![1, 2], vec![3]), Err(Error::InvalidInputError)));
    assert!(matches!(slice(&mut g, x, vec![0, 0, 0], vec![1, 1, 1]), Err(Error::InvalidInputError)));
}

#[test]
fn cast_only_when_types_differ() {
    let mut g = Graph::new();
    let x = g.add_input("x".to_string(), DType::F32, known(&[2]));
    assert_eq!(cast(&mut g, x, DType::F32).unwrap(), x);
    assert_eq!(g.node_count(), 0);
    let c = cast(&mut g, x, DType::I64).unwrap();
    assert_eq!(g.value(c).dtype, DType::I64);
    assert_eq!(g.node(0).attributes[0].name, "to");
    assert_eq!(g.node(0).attributes[0].value, AttributeValue::Int(7));
}

#[test]
fn transpose_swaps_last_two() {
    let mut g = Graph::new();
    let x = g.add_input("x".to_string(), DType::F32, known(&[2, 3, 4]));
    let t = transpose(&mut g, x);
    assert_eq!(g.value(t).shape, known(&[2, 4, 3]));
    assert_eq!(g.node(0).attributes[0].value, AttributeValue::Ints(vec![0, 2, 1]));
}

#[test]
fn cumsum_and_div_scalar_constants() {
    let mut g = Graph::new();
    let x = g.add_input("x".to_string(), DType::I64, known(&[3]));
    let c = cumsum(&mut g, x, 1).unwrap();
    assert_eq!(g.value(1).data.clone().unwrap(), vec![1, 0, 0, 0]);
    assert_eq!(g.value(1).dtype, DType::I32);
    assert_eq!(producer_op(&g, c), "CumSum");
    let d = div_scalar(&mut g, c, 2).unwrap();
    assert_eq!(producer_op(&g, d), "Div");
    assert_eq!(g.value(3).data.clone().unwrap(), vec![2, 0, 0, 0, 0, 0, 0, 0]);
    assert_eq!(g.value(d).shape, known(&[3]));
}

#[test]
fn rms_norm_attributes() {
    let mut g = Graph::new();
    let x = g.add_input("x".to_string(), DType::F32, known(&[2, 8]));
    let w = g.add_constant(Some("norm.weight".to_string()), DType::F32, known(&[8]), vec![0; 32]);
    let r = rms_norm(&mut g, Some("norm".to_string()), x, w).unwrap();
    let n = g.node(0);
    assert_eq!(n.op_type, "RMSNormalization");
    assert_eq!(n.name.clone().unwrap(), "norm");
    assert_eq!(n.attributes[0].value, AttributeValue::FloatBits(RMS_EPSILON_BITS));
    assert_eq!(f32::from_bits(RMS_EPSILON_BITS), 1e-5f32);
    assert_eq!(n.attributes[1].value, AttributeValue::Int(-1));
    assert_eq!(g.value(r).shape, known(&[2, 8]));
}

#[test]
fn silu_is_sigmoid_then_mul() {
    let mut g = Graph::new();
    let x = g.add_input("x".to_string(), DType::F32, known(&[2]));
    let s = silu(&mut g, x).unwrap();
    assert_eq!(g.node(0).op_type, "Sigmoid");
    assert_eq!(g.node(1).op_type, "Mul");
    assert_eq!(g.node(1).inputs, vec![x, 1]);
    assert_eq!(s, 2);
}

#[test]
fn linear_with_bias_names_the_add() {
    let mut g = Graph::new();
    let x = g.add_input("x".to_string(), DType::F32, known(&[5, 3]));
    let w = g.add_constant(Some("fc.weight".to_string()), DType::F32, known(&[4, 3]), vec![0; 48]);
    let b = g.add_constant(Some("fc.bias".to_string()), DType::F32, known(&[4]), vec![0; 16]);
    let r = linear(&mut g, Some("fc".to_string()), x, w, Some(b)).unwrap();
    let ops: Vec<String> = (0..g.node_count()).map(|i| g.node(i).op_type.clone()).collect();
    assert_eq!(ops, vec!["Unsqueeze", "MatMul", "Squeeze", "Add"]);
    assert_eq!(g.node(1).name.clone().unwrap(), "fc");
    assert_eq!(g.node(3).name.clone().unwrap(), "fc.bias");
    assert_eq!(g.value(3).data.clone().unwrap(), encode_i64s(&vec![2]));
    assert_eq!(producer_op(&g, r), "Add");
    assert_eq!(g.value(r).shape, known(&[5, 4]));
    assert_eq!(g.value(producer_input(&g, r, 0)).shape, known(&[5, 4]));
    let r2 = linear(&mut g, None, x, w, None).unwrap();
    assert_eq!(producer_op(&g, r2), "Squeeze");
}

#[test]
fn swiglu_combines_two_linear_maps() {
    let mut g = Graph::new();
    let x = g.add_input("x".to_string(), DType::F32, known(&[3]));
    let wi = g.add_constant(None, DType::F32, known(&[4, 3]), vec![0; 48]);
    let wo = g.add_constant(None, DType::F32, known(&[4, 3]), vec![0; 48]);
    let r = swiglu(&mut g, Some("mlp".to_string()), x, wi, None, wo, None).unwrap();
    assert_eq!(producer_op(&g, r), "Mul");
    let names: Vec<Option<String>> = (0..g.node_count()).map(|i| g.node(i).name.clone()).collect();
    assert!(names.contains(&Some("mlp.linear_inner".to_string())));
    assert!(names.contains(&Some("mlp.linear_outer".to_string())));
    assert!(matches!(swiglu(&mut g, None, x, 1000, None, wo, None), Err(Error::InvalidInputError)));
}

#[test]
fn layer_and_group_norm_nodes() {
    let mut g = Graph::new();
    let x = g.add_input("x".to_string(), DType::F32, known(&[2, 8]));
    let w = g.add_constant(None, DType::F32, known(&[8]), vec![0; 32]);
    let b = g.add_constant(None, DType::F32, known(&[8]), vec![0; 32]);
    let eps = 1e-6f32.to_bits();
    let l = layer_norm(&mut g, Some("ln".to_string()), x, w, Some(b), eps).unwrap();
    assert_eq!(g.node(0).op_type, "LayerNormalization");
    assert_eq!(g.node(0).inputs, vec![x, w, b]);
    assert_eq!(g.node(0).attributes[1].value, AttributeValue::FloatBits(eps));
    assert_eq!(g.node(0).attributes[2].value, AttributeValue::Int(1));
    let l2 = layer_norm(&mut g, None, l, w, None, eps).unwrap();
    assert_eq!(g.node(1).inputs, vec![l, w]);
    let gn = group_norm(&mut g, Some("gn".to_string()), l2, w, b, eps, 4).unwrap();
    assert_eq!(g.node(2).op_type, "GroupNormalization");
    assert_eq!(g.node(2).attributes[1].value, AttributeValue::Int(4));
    assert_eq!(g.value(gn).shape, known(&[2, 8]));
    assert!(matches!(group_norm(&mut g, None, x, w, 99, eps, 2), Err(Error::InvalidInputError)));
}

#[test]
fn linear_takes_rows_from_weight() {
    let mut g = Graph::new();
    let x = g.add_input("x".to_string(), DType::F32, known(&[1, 2]));
    let w = g.add_constant(None, DType::F32, known(&[3, 2]), vec![0; 24]);
    let r = linear(&mut g, None, x, w, None).unwrap();
    assert_eq!(g.value(r).shape, known(&[1, 3]));
    let v = g.add_constant(None, DType::F32, known(&[6]), vec![0; 24]);
    let r2 = linear(&mut g, None, x, v, None).unwrap();
    assert_eq!(g.value(r2).shape, vec![Dimension::Known(1), Dimension::Unresolved]);
}
