use bongo_modulator::graph::{
    patch_maxpool_padding, patch_resize_identity, rewrite_graph, Attribute, Graph, Initializer, Node,
};

fn s(v: &str) -> String {
    v.to_string()
}

fn ints_attr(name: &str, ints: &[i64]) -> Attribute {
    Attribute { name: s(name), kind: 7, ints: ints.to_vec(), bytes: Vec::new() }
}

fn node(name: &str, op: &str, inputs: &[&str], outputs: &[&str], attributes: Vec<Attribute>, origin: usize) -> Node {
    Node {
        name: s(name),
        op_type: s(op),
        inputs: inputs.iter().map(|x| s(x)).collect(),
        outputs: outputs.iter().map(|x| s(x)).collect(),
        attributes,
        origin: Some(origin),
        keeps_input_shape: false,
    }
}

fn graph_of(nodes: Vec<Node>) -> Graph {
    Graph { nodes, initializers: Vec::new(), inputs: vec![s("x")], outputs: vec![s("y")] }
}

fn pool(name: &str, input: &str, output: &str, kernel: &[i64], pads: &[i64], origin: usize) -> Node {
    node(name, "MaxPool", &[input], &[output], vec![ints_attr("kernel_shape", kernel), ints_attr("pads", pads)], origin)
}

fn sample_graph() -> Graph {
    Graph {
        nodes: vec![
            node("conv", "Conv", &["images", "w"], &["c0"], vec![ints_attr("strides", &[1, 1])], 0),
            node(
                "pool",
                "MaxPool",
                &["c0"],
                &["pooled"],
                vec![ints_attr("kernel_shape", &[3, 3]), ints_attr("pads", &[1, 1, 1, 1])],
                1,
            ),
            Node {
                keeps_input_shape: true,
                ..node("up", "Resize", &["pooled", "roi", "scales"], &["r0"], Vec::new(), 2)
            },
            pool("plain", "r0", "out", &[3, 3], &[0, 0, 0, 0], 3),
        ],
        initializers: vec![Initializer { name: s("w"), data_type: 1, dims: vec![1], int64_data: Vec::new() }],
        inputs: vec![s("images")],
        outputs: vec![s("out")],
    }
}

fn summary(g: &Graph) -> Vec<(String, String, Vec<String>, Vec<String>, Option<usize>)> {
    g.nodes
        .iter()
        .map(|n| (n.name.clone(), n.op_type.clone(), n.inputs.clone(), n.outputs.clone(), n.origin))
        .collect()
}

#[test]
fn unit_padding_becomes_pad_node() {
    let mut g = sample_graph();
    patch_maxpool_padding(&mut g);
    assert_eq!(g.nodes.len(), 5);
    let pad = &g.nodes[1];
    assert_eq!(pad.name, "pool___pad");
    assert_eq!(pad.op_type, "Pad");
    assert_eq!(pad.inputs, vec![s("c0"), s("pool___pads")]);
    assert_eq!(pad.outputs, vec![s("pool___pad_out")]);
    assert_eq!(pad.origin, None);
    assert_eq!(pad.attributes.len(), 1);
    assert_eq!(pad.attributes[0].name, "mode");
    assert_eq!(pad.attributes[0].kind, 3);
    assert_eq!(pad.attributes[0].bytes, b"reflect".to_vec());
    let pool = &g.nodes[2];
    assert_eq!(pool.op_type, "MaxPool");
    assert_eq!(pool.inputs, vec![s("pool___pad_out")]);
    assert_eq!(pool.outputs, vec![s("pooled")]);
    assert_eq!(pool.attributes[1].ints, vec![0, 0, 0, 0]);
    assert_eq!(pool.attributes[0].ints, vec![3, 3]);
    assert_eq!(g.initializers.len(), 2);
    let init = &g.initializers[1];
    assert_eq!(init.name, "pool___pads");
    assert_eq!(init.data_type, 7);
    assert_eq!(init.dims, vec![8]);
    assert_eq!(init.int64_data, vec![0, 0, 1, 1, 0, 0, 1, 1]);
    assert_eq!(g.outputs, vec![s("out")]);
}

#[test]
fn asymmetric_padding_keeps_begin_and_end() {
    let mut g = graph_of(vec![pool("p", "x", "y", &[3, 5], &[0, 2, 1, 0], 0)]);
    patch_maxpool_padding(&mut g);
    assert_eq!(g.initializers[0].int64_data, vec![0, 0, 0, 2, 0, 0, 1, 0]);
}

#[test]
fn padding_that_cannot_move_is_left_alone() {
    let mut g = graph_of(vec![
        pool("a", "x", "y", &[3, 3], &[0, 0, 0, 0], 0),
        pool("b", "y", "z", &[3, 3], &[1, 1, 1], 1),
        node("c", "AveragePool", &["z"], &["w"], vec![ints_attr("pads", &[1, 1, 1, 1])], 2),
        node("d", "MaxPool", &[], &["v"], vec![ints_attr("pads", &[1, 1, 1, 1])], 3),
    ]);
    let before = summary(&g);
    patch_maxpool_padding(&mut g);
    assert_eq!(summary(&g), before);
    assert!(g.initializers.is_empty());
}

#[test]
fn resize_becomes_identity() {
    let mut g = sample_graph();
    patch_resize_identity(&mut g);
    let up = &g.nodes[2];
    assert_eq!(up.op_type, "Identity");
    assert_eq!(up.inputs, vec![s("pooled")]);
    assert_eq!(up.outputs, vec![s("r0")]);
    assert_eq!(up.name, "up");
}

#[test]
fn rewrite_is_idempotent() {
    let mut once = sample_graph();
    rewrite_graph(&mut once);
    let first = summary(&once);
    let first_inits: Vec<String> = once.initializers.iter().map(|i| i.name.clone()).collect();
    rewrite_graph(&mut once);
    assert_eq!(summary(&once), first);
    let second_inits: Vec<String> = once.initializers.iter().map(|i| i.name.clone()).collect();
    assert_eq!(second_inits, first_inits);
    assert_eq!(first.len(), 5);
    assert_eq!(first[3].1, "Identity");
}

#[test]
fn resize_changing_shape_is_kept() {
    let mut g = graph_of(vec![node("up", "Resize", &["x", "roi", "scales"], &["y"], Vec::new(), 0)]);
    patch_resize_identity(&mut g);
    assert_eq!(g.nodes[0].op_type, "Resize");
    assert_eq!(g.nodes[0].inputs.len(), 3);
}

#[test]
fn added_names_avoid_existing_ones() {
    let mut g = graph_of(vec![pool("mp", "mp_pad_out", "y", &[3, 3], &[1, 1, 1, 1], 0)]);
    patch_maxpool_padding(&mut g);
    let pad = &g.nodes[0];
    assert_eq!(pad.inputs[0], "mp_pad_out");
    assert_ne!(pad.outputs[0], "mp_pad_out");
    assert_eq!(g.nodes[1].inputs[0], pad.outputs[0]);
    // longest name is "mp_pad_out" (10 characters): stems are 11 long
    assert_eq!(pad.name, "mp_________pad");
    assert_eq!(pad.outputs[0], "mp_________pad_out");
}

#[test]
fn unnamed_pools_get_distinct_names() {
    let mut g = graph_of(vec![
        pool("", "x", "a", &[3, 3], &[1, 1, 1, 1], 0),
        pool("", "a", "y", &[5, 5], &[2, 2, 2, 2], 1),
    ]);
    patch_maxpool_padding(&mut g);
    assert_eq!(g.initializers.len(), 2);
    let mut names: Vec<String> = g.initializers.iter().map(|i| i.name.clone()).collect();
    names.extend(g.nodes.iter().filter(|n| n.op_type == "Pad").map(|n| n.name.clone()));
    names.extend(g.nodes.iter().filter(|n| n.op_type == "Pad").map(|n| n.outputs[0].clone()));
    let mut unique = names.clone();
    unique.sort();
    unique.dedup();
    assert_eq!(unique.len(), 6);
    assert_eq!(g.initializers[0].int64_data, vec![0, 0, 1, 1, 0, 0, 1, 1]);
    assert_eq!(g.initializers[1].int64_data, vec![0, 0, 2, 2, 0, 0, 2, 2]);
    assert_eq!(g.nodes[0].inputs[1], g.initializers[0].name);
    assert_eq!(g.nodes[2].inputs[1], g.initializers[1].name);
}

#[test]
fn every_padded_pool_is_rewritten() {
    let mut g = graph_of(vec![
        pool("d", "x", "v", &[2, 2], &[1, 1, 1, 1], 0),
        node("mp", "MaxPool", &["v"], &["y"], vec![ints_attr("pads", &[1, 1, 1, 1])], 1),
    ]);
    patch_maxpool_padding(&mut g);
    assert_eq!(g.nodes.len(), 4);
    assert_eq!(g.nodes[0].op_type, "Pad");
    assert_eq!(g.nodes[1].attributes[1].ints, vec![0, 0, 0, 0]);
    assert_eq!(g.nodes[2].op_type, "Pad");
    assert_eq!(g.nodes[2].inputs[0], "v");
    assert_eq!(g.nodes[3].attributes[0].ints, vec![0, 0, 0, 0]);
    assert_eq!(g.nodes[3].outputs, vec![s("y")]);
    assert_eq!(g.initializers.len(), 2);
    assert_eq!(g.initializers[1].int64_data, vec![0, 0, 1, 1, 0, 0, 1, 1]);
}
