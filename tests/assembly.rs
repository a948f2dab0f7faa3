use onnx_graph::assemble::{build_proto, build_with, plan, ModelProto};
use onnx_graph::graph::Graph;
use onnx_graph::tensor::{DType, Dimension, Error};
use onnx_graph::weights::{InitializerData, WeightStorageStrategy};

fn known(dims: &[u64]) -> Vec<Dimension> {
    dims.iter().map(|d| Dimension::Known(*d)).collect()
}

fn op(g: &mut Graph, op_type: &str, inputs: Vec<usize>, n_out: usize, dtype: DType, shape: &[u64]) -> Vec<usize> {
    let types: Vec<(DType, Vec<Dimension>)> = (0..n_out).map(|_| (dtype, known(shape))).collect();
    g.add_node(op_type.to_string(), "ai.onnx".to_string(), None, inputs, vec![], &types).unwrap()
}

fn names(infos: &[onnx_graph::assemble::ValueInfo]) -> Vec<String> {
    infos.iter().map(|i| i.name.clone()).collect()
}

fn build(g: &Graph, inputs: Vec<usize>, outputs: Vec<(&str, usize)>, s: WeightStorageStrategy) -> Result<ModelProto, Error> {
    let outs: Vec<(String, usize)> = outputs.into_iter().map(|(n, v)| (n.to_string(), v)).collect();
    build_proto(g, &inputs, &outs, s)
}

#[test]
fn single_operation_graph() {
    let mut g = Graph::new();
    let x = g.add_input("x".to_string(), DType::F32, known(&[1, 4]));
    let y = op(&mut g, "Relu", vec![x], 1, DType::F32, &[1, 4])[0];
    let m = build(&g, vec![x], vec![("y", y)], WeightStorageStrategy::Discard).unwrap();
    assert_eq!(m.graph.nodes.len(), 1);
    assert_eq!(names(&m.graph.inputs), vec!["x".to_string()]);
    assert_eq!(names(&m.graph.outputs), vec!["y".to_string()]);
    assert_eq!(m.graph.inputs[0].shape, known(&[1, 4]));
    assert_eq!(m.graph.inputs[0].dtype, DType::F32);
    assert_eq!(m.graph.initializers.len(), 0);
    assert_eq!(m.graph.value_infos.len(), 0);
    assert_eq!(m.graph.nodes[0].inputs, vec!["x".to_string()]);
    assert_eq!(m.graph.nodes[0].outputs, vec!["y".to_string()]);
    assert_eq!(m.graph.nodes[0].name, "");
    assert_eq!(m.ir_version, 10);
    assert_eq!(m.producer_name, "onnx-graph");
    assert!(m.weight_file.is_empty());
}

#[test]
fn unnamed_intermediate_gets_generated_name() {
    let mut g = Graph::new();
    let x = g.add_input("x".to_string(), DType::F32, known(&[2]));
    let t = op(&mut g, "Relu", vec![x], 1, DType::F32, &[2])[0];
    let o = op(&mut g, "Neg", vec![t], 1, DType::F32, &[2])[0];
    let m = build(&g, vec![x], vec![("out", o)], WeightStorageStrategy::Discard).unwrap();
    assert_eq!(m.graph.value_infos.len(), 1);
    let name = m.graph.value_infos[0].name.clone();
    assert!(name.starts_with("tensor_"));
    assert!(name["tensor_".len()..].chars().all(|c| c.is_ascii_digit()));
    assert_ne!(name, "out");
    assert_eq!(name, "tensor_0");
    assert_eq!(m.graph.nodes[0].op_type, "Relu");
    assert_eq!(m.graph.nodes[1].op_type, "Neg");
    let first = m.graph.nodes.iter().find(|n| n.op_type == "Relu").unwrap();
    assert_eq!(first.outputs, vec![name.clone()]);
    let second = m.graph.nodes.iter().find(|n| n.op_type == "Neg").unwrap();
    assert_eq!(second.inputs, vec![name]);
}

#[test]
fn generated_names_skip_claimed_ones() {
    let mut g = Graph::new();
    let x = g.add_input("tensor_0".to_string(), DType::F32, known(&[2]));
    let t = op(&mut g, "Relu", vec![x], 1, DType::F32, &[2])[0];
    let o = op(&mut g, "Neg", vec![t], 1, DType::F32, &[2])[0];
    let m = build(&g, vec![x], vec![("tensor_1", o)], WeightStorageStrategy::Discard).unwrap();
    assert_eq!(names(&m.graph.value_infos), vec!["tensor_2".to_string()]);
}

#[test]
fn duplicate_explicit_names_conflict() {
    let mut g = Graph::new();
    let a = g.add_input("x".to_string(), DType::F32, known(&[2]));
    let b = g.add_input("x".to_string(), DType::F32, known(&[2]));
    let o = op(&mut g, "Add", vec![a, b], 1, DType::F32, &[2])[0];
    let r = build(&g, vec![a, b], vec![("y", o)], WeightStorageStrategy::Discard);
    match r {
        Err(Error::NameConflictError(n)) => assert_eq!(n, "x"),
        other => panic!("unexpected {:?}", other.map(|m| m.graph.nodes.len())),
    }
}

#[test]
fn output_name_taken_by_other_value_conflicts() {
    let mut g = Graph::new();
    let a = g.add_input("y".to_string(), DType::F32, known(&[2]));
    let o = op(&mut g, "Neg", vec![a], 1, DType::F32, &[2])[0];
    let r = build(&g, vec![a], vec![("y", o)], WeightStorageStrategy::Discard);
    assert!(matches!(r, Err(Error::NameConflictError(ref n)) if n == "y"));
}

#[test]
fn shared_value_is_listed_and_named_once() {
    let mut g = Graph::new();
    let a = g.add_input("a".to_string(), DType::F32, known(&[3]));
    let p = op(&mut g, "Relu", vec![a], 1, DType::F32, &[3])[0];
    let q = op(&mut g, "Neg", vec![a], 1, DType::F32, &[3])[0];
    let r = op(&mut g, "Abs", vec![a], 1, DType::F32, &[3])[0];
    let s = op(&mut g, "Sum", vec![p, q, r], 1, DType::F32, &[3])[0];
    let m = build(&g, vec![a], vec![("s", s)], WeightStorageStrategy::Discard).unwrap();
    assert_eq!(m.graph.nodes.len(), 4);
    let readers = m.graph.nodes.iter().filter(|n| n.inputs == vec!["a".to_string()]).count();
    assert_eq!(readers, 3);
    let mut all: Vec<String> = names(&m.graph.value_infos);
    all.extend(names(&m.graph.inputs));
    all.extend(names(&m.graph.outputs));
    assert_eq!(all.len(), 5);
    let mut sorted = all.clone();
    sorted.sort();
    sorted.dedup();
    assert_eq!(sorted.len(), 5);
    assert_eq!(all.iter().filter(|n| n.as_str() == "a").count(), 1);
}

#[test]
fn partly_consumed_multi_output_node() {
    let mut g = Graph::new();
    let x = g.add_input("x".to_string(), DType::F32, known(&[4]));
    let outs = op(&mut g, "Split", vec![x], 2, DType::F32, &[2]);
    let y = op(&mut g, "Neg", vec![outs[0]], 1, DType::F32, &[2])[0];
    let m = build(&g, vec![x], vec![("y", y)], WeightStorageStrategy::Discard).unwrap();
    assert_eq!(m.graph.nodes.len(), 2);
    assert_eq!(m.graph.nodes.iter().filter(|n| n.op_type == "Split").count(), 1);
    assert_eq!(m.graph.value_infos.len(), 1);
    let split = m.graph.nodes.iter().find(|n| n.op_type == "Split").unwrap();
    assert_eq!(split.outputs.len(), 2);
    assert_eq!(split.outputs[0], m.graph.value_infos[0].name);
    assert_eq!(split.outputs[1], "");
}

fn weighted_graph() -> (Graph, usize, usize) {
    let mut g = Graph::new();
    let x = g.add_input("x".to_string(), DType::U8, known(&[3]));
    let w = g.add_constant(Some("w".to_string()), DType::U8, known(&[3]), vec![7, 8, 9]);
    let b = g.add_constant(None, DType::U8, known(&[1]), vec![5]);
    let t = op(&mut g, "Mul", vec![x, w], 1, DType::U8, &[3])[0];
    let y = op(&mut g, "Add", vec![t, b], 1, DType::U8, &[3])[0];
    (g, x, y)
}

#[test]
fn strategies_differ_only_in_payloads() {
    let (g, x, y) = weighted_graph();
    let d = build(&g, vec![x], vec![("y", y)], WeightStorageStrategy::Discard).unwrap();
    let e = build(&g, vec![x], vec![("y", y)], WeightStorageStrategy::EmbeddedData).unwrap();
    let f = build(&g, vec![x], vec![("y", y)], WeightStorageStrategy::BinFile("w.bin".to_string())).unwrap();
    for m in [&e, &f] {
        assert_eq!(m.graph.nodes.len(), d.graph.nodes.len());
        for (a, b) in m.graph.nodes.iter().zip(d.graph.nodes.iter()) {
            assert_eq!(a.inputs, b.inputs);
            assert_eq!(a.outputs, b.outputs);
            assert_eq!(a.op_type, b.op_type);
        }
        assert_eq!(names(&m.graph.value_infos), names(&d.graph.value_infos));
        assert_eq!(names(&m.graph.inputs), names(&d.graph.inputs));
        assert_eq!(names(&m.graph.outputs), names(&d.graph.outputs));
        let a: Vec<String> = m.graph.initializers.iter().map(|i| i.name.clone()).collect();
        let b: Vec<String> = d.graph.initializers.iter().map(|i| i.name.clone()).collect();
        assert_eq!(a, b);
    }
    assert_eq!(d.graph.initializers.len(), 2);
    assert!(d.graph.initializers.iter().all(|i| i.data == InitializerData::Discarded));
    let w = e.graph.initializers.iter().find(|i| i.name == "w").unwrap();
    assert_eq!(w.data, InitializerData::Raw(vec![7, 8, 9]));
    assert_eq!(w.dims, vec![3]);
    let mut total = 0;
    for i in &f.graph.initializers {
        match &i.data {
            InitializerData::External { location, offset, length } => {
                assert_eq!(location, "w.bin");
                assert_eq!(*offset, total);
                total += *length;
            },
            other => panic!("unexpected {:?}", other),
        }
    }
    assert_eq!(total, 4);
    assert_eq!(f.weight_file.len(), 4);
    let mut sorted = f.weight_file.clone();
    sorted.sort();
    assert_eq!(sorted, vec![5, 7, 8, 9]);
    assert!(e.weight_file.is_empty());
}

#[test]
fn repeated_assembly_is_identical() {
    let (g, x, y) = weighted_graph();
    let a = build(&g, vec![x], vec![("y", y)], WeightStorageStrategy::EmbeddedData).unwrap();
    let b = build(&g, vec![x], vec![("y", y)], WeightStorageStrategy::EmbeddedData).unwrap();
    assert_eq!(names(&a.graph.value_infos), names(&b.graph.value_infos));
    let na: Vec<Vec<String>> = a.graph.nodes.iter().map(|n| n.outputs.clone()).collect();
    let nb: Vec<Vec<String>> = b.graph.nodes.iter().map(|n| n.outputs.clone()).collect();
    assert_eq!(na, nb);
}

#[test]
fn constants_are_initializers_and_intermediates() {
    let (g, x, y) = weighted_graph();
    let m = build(&g, vec![x], vec![("y", y)], WeightStorageStrategy::Discard).unwrap();
    let infos = names(&m.graph.value_infos);
    assert_eq!(infos.len(), 3);
    assert!(infos.contains(&"w".to_string()));
}

#[test]
fn unresolved_constant_dimension_fails() {
    let mut g = Graph::new();
    let x = g.add_input("x".to_string(), DType::U8, known(&[1]));
    let c = g.add_constant(None, DType::U8, vec![Dimension::Symbolic("n".to_string())], vec![1]);
    let y = op(&mut g, "Add", vec![x, c], 1, DType::U8, &[1])[0];
    let r = build(&g, vec![x], vec![("y", y)], WeightStorageStrategy::EmbeddedData);
    assert!(matches!(r, Err(Error::UnresolvedDimensionError)));
}

#[test]
fn bad_handles_and_unreached_inputs_fail() {
    let mut g = Graph::new();
    let x = g.add_input("x".to_string(), DType::F32, known(&[1]));
    let z = g.add_input("z".to_string(), DType::F32, known(&[1]));
    let y = op(&mut g, "Neg", vec![x], 1, DType::F32, &[1])[0];
    assert!(matches!(build(&g, vec![x], vec![("y", 99)], WeightStorageStrategy::Discard), Err(Error::InvalidInputError)));
    assert!(matches!(build(&g, vec![x, z], vec![("y", y)], WeightStorageStrategy::Discard), Err(Error::InvalidInputError)));
    let r = g.add_node("Neg".to_string(), "ai.onnx".to_string(), None, vec![42], vec![], &vec![(DType::F32, known(&[1]))]);
    assert!(matches!(r, Err(Error::InvalidInputError)));
}

#[test]
fn named_nodes_keep_their_names() {
    let mut g = Graph::new();
    let x = g.add_input("x".to_string(), DType::F32, known(&[1]));
    let y = g.add_node("Neg".to_string(), "ai.onnx".to_string(), Some("neg0".to_string()), vec![x], vec![], &vec![(DType::F32, known(&[1]))]).unwrap()[0];
    let m = build(&g, vec![x], vec![("y", y)], WeightStorageStrategy::Discard).unwrap();
    assert_eq!(m.graph.nodes[0].name, "neg0");
    assert_eq!(m.graph.nodes[0].domain, "ai.onnx");
}

#[test]
fn one_layout_under_three_strategies() {
    let (g, x, y) = weighted_graph();
    let inputs = vec![x];
    let outputs = vec![("y".to_string(), y)];
    let layout = plan(&g, &inputs, &outputs).unwrap();
    let d = build_with(&g, &layout, &inputs, &outputs, WeightStorageStrategy::Discard).unwrap();
    let e = build_with(&g, &layout, &inputs, &outputs, WeightStorageStrategy::EmbeddedData).unwrap();
    let f = build_with(&g, &layout, &inputs, &outputs, WeightStorageStrategy::BinFile("w.bin".to_string())).unwrap();
    for m in [&e, &f] {
        assert_eq!(names(&m.graph.value_infos), names(&d.graph.value_infos));
        let a: Vec<(Vec<String>, Vec<String>)> = m.graph.nodes.iter().map(|n| (n.inputs.clone(), n.outputs.clone())).collect();
        let b: Vec<(Vec<String>, Vec<String>)> = d.graph.nodes.iter().map(|n| (n.inputs.clone(), n.outputs.clone())).collect();
        assert_eq!(a, b);
    }
    let w = f.graph.initializers.iter().find(|i| i.name == "w").unwrap();
    match &w.data {
        InitializerData::External { offset, length, .. } => {
            assert_eq!(*length, 3);
            assert_eq!(&f.weight_file[*offset..*offset + 3], &[7, 8, 9]);
        },
        other => panic!("unexpected {:?}", other),
    }
    assert!(matches!(plan(&g, &inputs, &vec![("y".to_string(), 50)]), Err(Error::InvalidInputError)));
}

#[test]
fn earlier_output_declaration_still_claims() {
    let mut g = Graph::new();
    let a = g.add_input("a".to_string(), DType::F32, known(&[2]));
    let o = op(&mut g, "Neg", vec![a], 1, DType::F32, &[2])[0];
    let r = build(&g, vec![a], vec![("a", o), ("b", o)], WeightStorageStrategy::Discard);
    assert!(matches!(r, Err(Error::NameConflictError(ref n)) if n == "a"));
}

#[test]
fn two_outputs_with_one_name_conflict() {
    let mut g = Graph::new();
    let x = g.add_input("x".to_string(), DType::F32, known(&[2]));
    let p = op(&mut g, "Neg", vec![x], 1, DType::F32, &[2])[0];
    let q = op(&mut g, "Abs", vec![x], 1, DType::F32, &[2])[0];
    let r = build(&g, vec![x], vec![("y", p), ("y", q)], WeightStorageStrategy::Discard);
    assert!(matches!(r, Err(Error::NameConflictError(ref n)) if n == "y"));
}

#[test]
fn overridden_names_stay_reserved() {
    let mut g = Graph::new();
    let x = g.add_input("x".to_string(), DType::F32, known(&[2]));
    let t = op(&mut g, "Relu", vec![x], 1, DType::F32, &[2])[0];
    let c = g.add_constant(Some("tensor_0".to_string()), DType::U8, known(&[1]), vec![1]);
    let o = op(&mut g, "Add", vec![t, c], 1, DType::F32, &[2])[0];
    let m = build(&g, vec![x], vec![("out", o), ("tensor_0", c)], WeightStorageStrategy::Discard);
    assert!(m.is_ok());
    let mut g2 = Graph::new();
    let x2 = g2.add_input("x".to_string(), DType::F32, known(&[2]));
    let t2 = op(&mut g2, "Relu", vec![x2], 1, DType::F32, &[2])[0];
    let o2 = g2.add_node("Neg".to_string(), "ai.onnx".to_string(), None, vec![t2], vec![], &vec![(DType::F32, known(&[2]))]).unwrap()[0];
    let m2 = build(&g2, vec![x2], vec![("tensor_0", o2), ("out", o2)], WeightStorageStrategy::Discard).unwrap();
    assert_eq!(names(&m2.graph.outputs), vec!["tensor_0".to_string(), "out".to_string()]);
    assert_eq!(names(&m2.graph.value_infos), vec!["tensor_1".to_string()]);
}
