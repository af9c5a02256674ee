//! Compatibility rewriter for computation graphs.
//!
//! A loaded model's graph is described here by what the rewrites read and
//! write: each node's name, operator type, input and output value names and
//! attributes, plus the graph's constant initializers. Two rewrites make the
//! graph runnable on the local inference backend:
//!
//! * a `MaxPool` node with non-zero `pads` gets an explicit `Pad` node in front
//!   of it (padding mode `reflect`, amounts in a new initializer) and its own
//!   padding set to zero. Reflect padding keeps the pooled values where the
//!   kernel spans at least `2p + 1` positions on each axis (see `pooling`).
//!   The new node, value and initializer are named after the pool,
//!   filled with underscores past the longest name of the graph, so they clash
//!   neither with an existing name nor with each other;
//! * a `Resize` node whose output is known to have the shape of its first
//!   input becomes an `Identity` over that input (the backend has no `Resize`
//!   operator; one that changes the resolution is left for it to reject).
use vstd::prelude::*;
use vstd::string::StringExecFns;

verus! {

/// ONNX attribute kind of a string attribute.
pub const ATTR_KIND_STRING: i32 = 3;

/// ONNX tensor element type of 64-bit integers.
pub const TENSOR_INT64: i32 = 7;

/// A node attribute: only its name, kind, integer list and byte string are read.
pub struct Attribute {
    pub name: String,
    pub kind: i32,
    pub ints: Vec<i64>,
    pub bytes: Vec<u8>,
}

/// A graph node.
pub struct Node {
    pub name: String,
    pub op_type: String,
    pub inputs: Vec<String>,
    pub outputs: Vec<String>,
    pub attributes: Vec<Attribute>,
    /// Position of the loaded node this one stands for; `None` for inserted nodes.
    pub origin: Option<usize>,
    /// The model's shape information shows that the output has the shape of the first input.
    pub keeps_input_shape: bool,
}

/// A constant integer tensor of the graph.
pub struct Initializer {
    pub name: String,
    pub data_type: i32,
    pub dims: Vec<i64>,
    pub int64_data: Vec<i64>,
}

/// A computation graph.
pub struct Graph {
    pub nodes: Vec<Node>,
    pub initializers: Vec<Initializer>,
    pub inputs: Vec<String>,
    pub outputs: Vec<String>,
}

pub struct AttrModel {
    pub name: Seq<char>,
    pub kind: i32,
    pub ints: Seq<i64>,
    pub bytes: Seq<u8>,
}

pub struct NodeModel {
    pub name: Seq<char>,
    pub op_type: Seq<char>,
    pub inputs: Seq<Seq<char>>,
    pub outputs: Seq<Seq<char>>,
    pub attributes: Seq<AttrModel>,
    pub origin: Option<usize>,
    pub keeps_input_shape: bool,
}

pub struct InitModel {
    pub name: Seq<char>,
    pub data_type: i32,
    pub dims: Seq<i64>,
    pub int64_data: Seq<i64>,
}

pub struct GraphModel {
    pub nodes: Seq<NodeModel>,
    pub initializers: Seq<InitModel>,
    pub inputs: Seq<Seq<char>>,
    pub outputs: Seq<Seq<char>>,
}

pub open spec fn strings_model(v: Seq<String>) -> Seq<Seq<char>> {
    v.map_values(|s: String| s@)
}

pub open spec fn attrs_model(v: Seq<Attribute>) -> Seq<AttrModel> {
    v.map_values(|a: Attribute| a@)
}

pub open spec fn nodes_model(v: Seq<Node>) -> Seq<NodeModel> {
    v.map_values(|n: Node| n@)
}

pub open spec fn inits_model(v: Seq<Initializer>) -> Seq<InitModel> {
    v.map_values(|i: Initializer| i@)
}

impl View for Attribute {
    type V = AttrModel;

    open spec fn view(&self) -> AttrModel {
        AttrModel { name: self.name@, kind: self.kind, ints: self.ints@, bytes: self.bytes@ }
    }
}

impl View for Node {
    type V = NodeModel;

    open spec fn view(&self) -> NodeModel {
        NodeModel {
            name: self.name@,
            op_type: self.op_type@,
            inputs: strings_model(self.inputs@),
            outputs: strings_model(self.outputs@),
            attributes: attrs_model(self.attributes@),
            origin: self.origin,
            keeps_input_shape: self.keeps_input_shape,
        }
    }
}

impl View for Initializer {
    type V = InitModel;

    open spec fn view(&self) -> InitModel {
        InitModel { name: self.name@, data_type: self.data_type, dims: self.dims@, int64_data: self.int64_data@ }
    }
}

impl View for Graph {
    type V = GraphModel;

    open spec fn view(&self) -> GraphModel {
        GraphModel {
            nodes: nodes_model(self.nodes@),
            initializers: inits_model(self.initializers@),
            inputs: strings_model(self.inputs@),
            outputs: strings_model(self.outputs@),
        }
    }
}

/// Position of the first attribute called `name`, or -1 if there is none.
pub open spec fn find_attr(attrs: Seq<AttrModel>, name: Seq<char>) -> int
    decreases attrs.len(),
{
    if attrs.len() == 0 {
        -1
    } else if attrs[0].name == name {
        0
    } else {
        let k = find_attr(attrs.drop_first(), name);
        if k < 0 {
            -1
        } else {
            k + 1
        }
    }
}

pub open spec fn pads_index(n: NodeModel) -> int {
    find_attr(n.attributes, "pads"@)
}

pub open spec fn pads_of(n: NodeModel) -> Seq<i64> {
    n.attributes[pads_index(n)].ints
}

pub open spec fn has_nonzero_spec(p: Seq<i64>) -> bool {
    exists|i: int| 0 <= i < p.len() && p[i] != 0
}

pub open spec fn kernel_index(n: NodeModel) -> int {
    find_attr(n.attributes, "kernel_shape"@)
}

/// Reflect padding reproduces implicit padding exactly: on each spatial axis the
/// begin and end amounts `b`, `e` are not negative and the kernel spans at least
/// `2b + 1` and `2e + 1` positions, so every reflected value is a copy of a value
/// inside the same window.
pub open spec fn reflect_exact(pads: Seq<i64>, kernel: Seq<i64>) -> bool {
    &&& kernel.len() == pads.len() / 2
    &&& forall|a: int| 0 <= a < pads.len() / 2 ==> #[trigger] axis_exact(pads, kernel, a)
}

/// The condition of `reflect_exact` on spatial axis `a`.
pub open spec fn axis_exact(pads: Seq<i64>, kernel: Seq<i64>, a: int) -> bool {
    let d = (pads.len() / 2) as int;
    &&& pads[a] >= 0
    &&& pads[a + d] >= 0
    &&& kernel[a] >= 2 * pads[a] + 1
    &&& kernel[a] >= 2 * pads[a + d] + 1
}

/// A pooling node whose implicit padding must move into an explicit `Pad` node:
/// a `MaxPool` with an input whose first `pads` attribute holds a begin and an
/// end amount for each spatial axis, not all zero.
pub open spec fn splits(n: NodeModel) -> bool {
    &&& n.op_type == "MaxPool"@
    &&& n.inputs.len() > 0
    &&& pads_index(n) >= 0
    &&& pads_of(n).len() % 2 == 0
    &&& has_nonzero_spec(pads_of(n))
}

/// `Pad` amounts for an `N, C, spatial...` tensor: nothing on the batch and
/// channel axes, the pooling amounts on the spatial ones.
pub open spec fn explicit_pads(p: Seq<i64>) -> Seq<i64> {
    let k = (p.len() / 2) as int;
    seq![0i64, 0i64] + p.subrange(0, k) + seq![0i64, 0i64] + p.subrange(k, p.len() as int)
}

pub open spec fn zeros_spec(len: nat) -> Seq<i64> {
    Seq::new(len, |i: int| 0i64)
}

pub open spec fn reflect_bytes() -> Seq<u8> {
    seq![114u8, 101u8, 102u8, 108u8, 101u8, 99u8, 116u8]
}

pub open spec fn reflect_mode_attr() -> AttrModel {
    AttrModel { name: "mode"@, kind: ATTR_KIND_STRING, ints: Seq::empty(), bytes: reflect_bytes() }
}

/// Longest length among some names; 0 for none.
pub open spec fn max_len(s: Seq<Seq<char>>) -> nat
    decreases s.len(),
{
    if s.len() == 0 {
        0
    } else {
        let m = max_len(s.drop_last());
        if s.last().len() > m {
            s.last().len()
        } else {
            m
        }
    }
}

pub open spec fn node_width(n: NodeModel) -> nat {
    let a = max_len(n.inputs);
    let b = max_len(n.outputs);
    let io = if a >= b { a } else { b };
    if n.name.len() >= io {
        n.name.len()
    } else {
        io
    }
}

pub open spec fn nodes_width(nodes: Seq<NodeModel>) -> nat
    decreases nodes.len(),
{
    if nodes.len() == 0 {
        0
    } else {
        let m = nodes_width(nodes.drop_last());
        if node_width(nodes.last()) > m {
            node_width(nodes.last())
        } else {
            m
        }
    }
}

pub open spec fn inits_width(inits: Seq<InitModel>) -> nat
    decreases inits.len(),
{
    if inits.len() == 0 {
        0
    } else {
        let m = inits_width(inits.drop_last());
        if inits.last().name.len() > m {
            inits.last().name.len()
        } else {
            m
        }
    }
}

/// Length of the longest name in the graph: node names, the values nodes read
/// and write, initializer names, graph inputs and outputs.
pub open spec fn name_width(g: GraphModel) -> nat {
    let a = nodes_width(g.nodes);
    let b = inits_width(g.initializers);
    let c = max_len(g.inputs);
    let d = max_len(g.outputs);
    let ab = if a >= b { a } else { b };
    let cd = if c >= d { c } else { d };
    if ab >= cd {
        ab
    } else {
        cd
    }
}

/// `s` names a node, a value, an initializer, a graph input or a graph output.
pub open spec fn name_in_graph(g: GraphModel, s: Seq<char>) -> bool {
    ||| exists|i: int|
        0 <= i < g.nodes.len() && (#[trigger] g.nodes[i].name == s || g.nodes[i].inputs.contains(s)
            || g.nodes[i].outputs.contains(s))
    ||| exists|i: int| 0 <= i < g.initializers.len() && #[trigger] g.initializers[i].name == s
    ||| g.inputs.contains(s)
    ||| g.outputs.contains(s)
}

/// `name` followed by underscores up to `w + 1` characters: longer than any
/// name of at most `w` characters.
pub open spec fn stem(name: Seq<char>, w: int) -> Seq<char> {
    let fill = if w + 1 >= name.len() { (w + 1 - name.len()) as nat } else { 0 };
    name + Seq::new(fill, |i: int| '_')
}

pub open spec fn pad_name(n: NodeModel, w: int) -> Seq<char> {
    stem(n.name, w) + "pad"@
}

pub open spec fn pad_out_name(n: NodeModel, w: int) -> Seq<char> {
    stem(n.name, w) + "pad_out"@
}

pub open spec fn pads_name(n: NodeModel, w: int) -> Seq<char> {
    stem(n.name, w) + "pads"@
}

pub open spec fn pad_node(n: NodeModel, w: int) -> NodeModel {
    NodeModel {
        name: pad_name(n, w),
        op_type: "Pad"@,
        inputs: seq![n.inputs[0], pads_name(n, w)],
        outputs: seq![pad_out_name(n, w)],
        attributes: seq![reflect_mode_attr()],
        origin: None,
        keeps_input_shape: false,
    }
}

pub open spec fn unpadded_pool(n: NodeModel, w: int) -> NodeModel {
    let k = pads_index(n);
    NodeModel {
        inputs: n.inputs.update(0, pad_out_name(n, w)),
        attributes: n.attributes.update(
            k,
            AttrModel { ints: zeros_spec(n.attributes[k].ints.len()), ..n.attributes[k] },
        ),
        ..n
    }
}

pub open spec fn pad_initializer(n: NodeModel, w: int) -> InitModel {
    InitModel {
        name: pads_name(n, w),
        data_type: TENSOR_INT64,
        dims: seq![explicit_pads(pads_of(n)).len() as i64],
        int64_data: explicit_pads(pads_of(n)),
    }
}

/// What one node becomes under the padding rewrite, its new names built on width `w`.
pub open spec fn expand(n: NodeModel, w: int) -> Seq<NodeModel> {
    if splits(n) {
        seq![pad_node(n, w), unpadded_pool(n, w)]
    } else {
        seq![n]
    }
}

/// The initializers one node adds under the padding rewrite.
pub open spec fn expand_inits(n: NodeModel, w: int) -> Seq<InitModel> {
    if splits(n) {
        seq![pad_initializer(n, w)]
    } else {
        Seq::empty()
    }
}

/// The names one node adds under the padding rewrite.
pub open spec fn expand_names(n: NodeModel, w: int) -> Seq<Seq<char>> {
    if splits(n) {
        seq![pad_name(n, w), pad_out_name(n, w), pads_name(n, w)]
    } else {
        Seq::empty()
    }
}

pub open spec fn count_splits(nodes: Seq<NodeModel>) -> nat
    decreases nodes.len(),
{
    if nodes.len() == 0 {
        0
    } else {
        count_splits(nodes.drop_last()) + if splits(nodes.last()) {
            1nat
        } else {
            0nat
        }
    }
}

/// Each split node's names are built 8 characters wider than the previous one's,
/// starting from width `w0`.
pub open spec fn width_after(nodes: Seq<NodeModel>, w0: int) -> int {
    w0 + 8 * count_splits(nodes)
}

pub open spec fn split_nodes(nodes: Seq<NodeModel>, w0: int) -> Seq<NodeModel>
    decreases nodes.len(),
{
    if nodes.len() == 0 {
        Seq::empty()
    } else {
        split_nodes(nodes.drop_last(), w0) + expand(nodes.last(), width_after(nodes.drop_last(), w0))
    }
}

pub open spec fn split_inits(nodes: Seq<NodeModel>, w0: int) -> Seq<InitModel>
    decreases nodes.len(),
{
    if nodes.len() == 0 {
        Seq::empty()
    } else {
        split_inits(nodes.drop_last(), w0) + expand_inits(nodes.last(), width_after(nodes.drop_last(), w0))
    }
}

/// Every name the padding rewrite adds, in order.
pub open spec fn added_names(nodes: Seq<NodeModel>, w0: int) -> Seq<Seq<char>>
    decreases nodes.len(),
{
    if nodes.len() == 0 {
        Seq::empty()
    } else {
        added_names(nodes.drop_last(), w0) + expand_names(nodes.last(), width_after(nodes.drop_last(), w0))
    }
}

pub open spec fn patch_maxpool_spec(g: GraphModel) -> GraphModel {
    GraphModel {
        nodes: split_nodes(g.nodes, name_width(g) as int),
        initializers: g.initializers + split_inits(g.nodes, name_width(g) as int),
        ..g
    }
}

pub open spec fn resize_to_identity(n: NodeModel) -> NodeModel {
    if n.op_type == "Resize"@ && n.inputs.len() > 0 && n.keeps_input_shape {
        NodeModel { op_type: "Identity"@, inputs: n.inputs.subrange(0, 1), ..n }
    } else {
        n
    }
}

pub open spec fn patch_resize_spec(g: GraphModel) -> GraphModel {
    GraphModel { nodes: g.nodes.map_values(|n: NodeModel| resize_to_identity(n)), ..g }
}

/// The whole compatibility pass: padding first, then resize.
pub open spec fn rewrite_spec(g: GraphModel) -> GraphModel {
    patch_resize_spec(patch_maxpool_spec(g))
}

proof fn lemma_find_attr(attrs: Seq<AttrModel>, name: Seq<char>)
    ensures
        ({
            let k = find_attr(attrs, name);
            &&& -1 <= k < attrs.len()
            &&& k >= 0 ==> attrs[k].name == name
            &&& forall|j: int| 0 <= j < attrs.len() && (k < 0 || j < k) ==> attrs[j].name != name
        }),
    decreases attrs.len(),
{
    if attrs.len() > 0 && attrs[0].name != name {
        lemma_find_attr(attrs.drop_first(), name);
        let k = find_attr(attrs, name);
        assert forall|j: int| 0 <= j < attrs.len() && (k < 0 || j < k) implies attrs[j].name != name by {
            if j > 0 {
                assert(attrs[j] == attrs.drop_first()[j - 1]);
            }
        }
    }
}

/// The first index of `name` is the one after all earlier names differ.
proof fn lemma_find_attr_at(attrs: Seq<AttrModel>, name: Seq<char>, k: int)
    requires
        -1 <= k < attrs.len(),
        k >= 0 ==> attrs[k].name == name,
        forall|j: int| 0 <= j < attrs.len() && (k < 0 || j < k) ==> attrs[j].name != name,
    ensures
        find_attr(attrs, name) == k,
{
    lemma_find_attr(attrs, name);
    let f = find_attr(attrs, name);
    if f >= 0 && k >= 0 {
        assert(!(f < k));
        assert(!(k < f));
    }
}

fn find_attr_exec(attrs: &Vec<Attribute>, name: &String) -> (r: Option<usize>)
    ensures
        match r {
            Some(k) => find_attr(attrs_model(attrs@), name@) == k as int,
            None => find_attr(attrs_model(attrs@), name@) == -1,
        },
{
    let ghost m = attrs_model(attrs@);
    let mut i: usize = 0;
    while i < attrs.len()
        invariant
            i <= attrs.len(),
            m == attrs_model(attrs@),
            forall|j: int| 0 <= j < i ==> m[j].name != name@,
        decreases attrs.len() - i,
    {
        if attrs[i].name == *name {
            proof {
                lemma_find_attr_at(m, name@, i as int);
            }
            return Some(i);
        }
        i += 1;
    }
    proof {
        lemma_find_attr_at(m, name@, -1);
    }
    None
}

fn has_nonzero(v: &Vec<i64>) -> (r: bool)
    ensures
        r == has_nonzero_spec(v@),
{
    let mut i: usize = 0;
    while i < v.len()
        invariant
            i <= v.len(),
            forall|j: int| 0 <= j < i ==> v@[j] == 0,
        decreases v.len() - i,
    {
        if v[i] != 0 {
            return true;
        }
        i += 1;
    }
    false
}

fn zeros(len: usize) -> (r: Vec<i64>)
    ensures
        r@ == zeros_spec(len as nat),
{
    let mut r: Vec<i64> = Vec::new();
    while r.len() < len
        invariant
            r.len() <= len,
            r@ == zeros_spec(r.len() as nat),
        decreases len - r.len(),
    {
        r.push(0);
        assert(r@ =~= zeros_spec(r.len() as nat));
    }
    r
}

fn explicit_pads_exec(p: &Vec<i64>) -> (r: Vec<i64>)
    requires
        p.len() % 2 == 0,
    ensures
        r@ == explicit_pads(p@),
{
    let k = p.len() / 2;
    let mut r: Vec<i64> = vec![0, 0];
    let mut i: usize = 0;
    while i < k
        invariant
            k == p.len() / 2,
            i <= k,
            r@ == seq![0i64, 0i64] + p@.subrange(0, i as int),
        decreases k - i,
    {
        r.push(p[i]);
        assert(r@ =~= seq![0i64, 0i64] + p@.subrange(0, i + 1));
        i += 1;
    }
    r.push(0);
    r.push(0);
    let ghost head = r@;
    assert(head =~= seq![0i64, 0i64] + p@.subrange(0, k as int) + seq![0i64, 0i64]);
    while i < p.len()
        invariant
            k == p.len() / 2,
            k <= i <= p.len(),
            r@ == head + p@.subrange(k as int, i as int),
        decreases p.len() - i,
    {
        r.push(p[i]);
        assert(r@ =~= head + p@.subrange(k as int, i + 1));
        i += 1;
    }
    r
}

fn reflect_mode() -> (a: Attribute)
    ensures
        a@ == reflect_mode_attr(),
{
    let a = Attribute {
        name: String::from_str("mode"),
        kind: ATTR_KIND_STRING,
        ints: Vec::new(),
        bytes: vec![114u8, 101u8, 102u8, 108u8, 101u8, 99u8, 116u8],
    };
    assert(a.ints@ =~= Seq::<i64>::empty());
    assert(a.bytes@ =~= reflect_bytes());
    a
}

/// Upper bound on the widths the padding pass builds names on.
pub open spec fn width_limit() -> int {
    0x1_0000_0000_0000_0000_0000
}

fn make_stem(name: &String, w: u128) -> (r: String)
    requires
        name@.len() <= w + 1,
        w < width_limit(),
    ensures
        r@ == stem(name@, w as int),
{
    let mut r = name.clone();
    let mut len: u128 = name.as_str().unicode_len() as u128;
    assert(r@ =~= name@ + Seq::new(0, |i: int| '_'));
    while len < w + 1
        invariant
            name@.len() <= len <= w + 1,
            w < width_limit(),
            r@ == name@ + Seq::new((len - name@.len()) as nat, |i: int| '_'),
        decreases w + 1 - len,
    {
        r.append("_");
        proof {
            reveal_strlit("_");
        }
        len = len + 1;
        assert(r@ =~= name@ + Seq::new((len - name@.len()) as nat, |i: int| '_'));
    }
    r
}

fn max_len_exec(v: &Vec<String>) -> (r: usize)
    ensures
        r == max_len(strings_model(v@)),
{
    let mut m: usize = 0;
    let mut i: usize = 0;
    while i < v.len()
        invariant
            i <= v.len(),
            m == max_len(strings_model(v@.subrange(0, i as int))),
        decreases v.len() - i,
    {
        assert(strings_model(v@.subrange(0, i + 1)).drop_last() =~= strings_model(v@.subrange(0, i as int)));
        let l = v[i].as_str().unicode_len();
        if l > m {
            m = l;
        }
        i += 1;
    }
    assert(v@.subrange(0, v.len() as int) =~= v@);
    m
}

fn node_width_exec(n: &Node) -> (r: usize)
    ensures
        r == node_width(n@),
{
    let a = max_len_exec(&n.inputs);
    let b = max_len_exec(&n.outputs);
    let io = if a >= b { a } else { b };
    let l = n.name.as_str().unicode_len();
    if l >= io { l } else { io }
}

/// Length of the longest name in the graph.
pub fn name_width_exec(graph: &Graph) -> (r: usize)
    ensures
        r == name_width(graph@),
{
    let mut a: usize = 0;
    let mut i: usize = 0;
    while i < graph.nodes.len()
        invariant
            i <= graph.nodes.len(),
            a == nodes_width(nodes_model(graph.nodes@.subrange(0, i as int))),
        decreases graph.nodes.len() - i,
    {
        assert(nodes_model(graph.nodes@.subrange(0, i + 1)).drop_last() =~= nodes_model(
            graph.nodes@.subrange(0, i as int),
        ));
        let l = node_width_exec(&graph.nodes[i]);
        if l > a {
            a = l;
        }
        i += 1;
    }
    assert(graph.nodes@.subrange(0, graph.nodes.len() as int) =~= graph.nodes@);
    let mut b: usize = 0;
    let mut j: usize = 0;
    while j < graph.initializers.len()
        invariant
            j <= graph.initializers.len(),
            b == inits_width(inits_model(graph.initializers@.subrange(0, j as int))),
        decreases graph.initializers.len() - j,
    {
        assert(inits_model(graph.initializers@.subrange(0, j + 1)).drop_last() =~= inits_model(
            graph.initializers@.subrange(0, j as int),
        ));
        let l = graph.initializers[j].name.as_str().unicode_len();
        if l > b {
            b = l;
        }
        j += 1;
    }
    assert(graph.initializers@.subrange(0, graph.initializers.len() as int) =~= graph.initializers@);
    let c = max_len_exec(&graph.inputs);
    let d = max_len_exec(&graph.outputs);
    let ab = if a >= b { a } else { b };
    let cd = if c >= d { c } else { d };
    if ab >= cd { ab } else { cd }
}

/// Appends what `node` becomes under the padding rewrite to `nodes`, and the
/// initializer it needs, if any, to `inits`; new names are built on width `w`.
fn split_padded_pool(node: Node, w: u128, nodes: &mut Vec<Node>, inits: &mut Vec<Initializer>) -> (split: bool)
    requires
        node@.name.len() <= w + 1,
        w < width_limit(),
    ensures
        split == splits(node@),
        nodes_model(final(nodes)@) == nodes_model(old(nodes)@) + expand(node@, w as int),
        inits_model(final(inits)@) == inits_model(old(inits)@) + expand_inits(node@, w as int),
{
    let ghost n0 = node@;
    let ghost nodes0 = nodes_model(nodes@);
    let mut node = node;
    let maxpool = String::from_str("MaxPool");
    let pads_name = String::from_str("pads");
    let k = if node.op_type == maxpool && node.inputs.len() > 0 {
        find_attr_exec(&node.attributes, &pads_name)
    } else {
        None
    };
    proof {
        lemma_find_attr(n0.attributes, "pads"@);
    }
    let split = match k {
        Some(k) => {
            assert(node.attributes@[k as int]@ == n0.attributes[k as int]);
            node.attributes[k].ints.len() % 2 == 0 && has_nonzero(&node.attributes[k].ints)
        },
        None => false,
    };
    if !split {
        assert(!splits(n0));
        nodes.push(node);
        assert(nodes_model(nodes@) =~= nodes0 + expand(n0, w as int));
        assert(inits_model(inits@) =~= inits_model(old(inits)@) + expand_inits(n0, w as int));
        return false;
    }
    let k = k.unwrap();
    assert(splits(n0));
    let full = explicit_pads_exec(&node.attributes[k].ints);
    let len = node.attributes[k].ints.len();
    let stem_name = make_stem(&node.name, w);
    let init_name = stem_name.clone().concat("pads");
    let pad_out = stem_name.clone().concat("pad_out");
    let pad_name = stem_name.concat("pad");
    let mut attr = node.attributes.remove(k);
    attr.ints = zeros(len);
    node.attributes.insert(k, attr);
    let first = node.inputs.remove(0);
    node.inputs.insert(0, pad_out.clone());
    let pad_node_exec = Node {
        name: pad_name,
        op_type: String::from_str("Pad"),
        inputs: vec![first, init_name.clone()],
        outputs: vec![pad_out],
        attributes: vec![reflect_mode()],
        origin: None,
        keeps_input_shape: false,
    };
    let dims = vec![full.len() as i64];
    let init = Initializer { name: init_name, data_type: TENSOR_INT64, dims, int64_data: full };
    assert(init@ == pad_initializer(n0, w as int)) by {
        assert(init.dims@ =~= seq![explicit_pads(pads_of(n0)).len() as i64]);
    }
    inits.push(init);
    assert(inits_model(inits@) =~= inits_model(old(inits)@) + expand_inits(n0, w as int));
    assert(pad_node_exec@ == pad_node(n0, w as int)) by {
        assert(pad_node_exec@.inputs =~= pad_node(n0, w as int).inputs);
        assert(pad_node_exec@.outputs =~= pad_node(n0, w as int).outputs);
        assert(pad_node_exec@.attributes =~= pad_node(n0, w as int).attributes);
    }
    assert(node@ == unpadded_pool(n0, w as int)) by {
        assert(node@.inputs =~= unpadded_pool(n0, w as int).inputs);
        assert(node@.attributes =~= unpadded_pool(n0, w as int).attributes);
    }
    nodes.push(pad_node_exec);
    nodes.push(node);
    assert(nodes_model(nodes@) =~= nodes0 + expand(n0, w as int));
    true
}

/// Moves the implicit padding of every padded `MaxPool` node into an explicit
/// `Pad` node placed in front of it, with the amounts in a new initializer.
pub fn patch_maxpool_padding(graph: &mut Graph)
    ensures
        final(graph)@ == patch_maxpool_spec(old(graph)@),
        added_names(old(graph)@.nodes, name_width(old(graph)@) as int).no_duplicates(),
        forall|k: int|
            0 <= k < added_names(old(graph)@.nodes, name_width(old(graph)@) as int).len() ==> !name_in_graph(
                old(graph)@,
                #[trigger] added_names(old(graph)@.nodes, name_width(old(graph)@) as int)[k],
            ),
{
    let ghost g0 = graph@;
    let w0 = name_width_exec(graph);
    proof {
        lemma_padding_names_fresh(g0);
        lemma_nodes_width(g0.nodes);
    }
    let mut w: u128 = w0 as u128;
    let mut rest: Vec<Node> = Vec::new();
    std::mem::swap(&mut rest, &mut graph.nodes);
    let ghost orig = nodes_model(rest@);
    assert(orig == g0.nodes);
    let total = rest.len();
    let mut done: Vec<Node> = Vec::new();
    while rest.len() > 0
        invariant
            rest.len() <= orig.len(),
            orig.len() == total,
            orig == g0.nodes,
            w0 == name_width(g0),
            forall|j: int| 0 <= j < orig.len() ==> node_width(#[trigger] orig[j]) <= w0,
            w == width_after(orig.subrange(0, orig.len() - rest.len()), w0 as int),
            count_splits(orig.subrange(0, orig.len() - rest.len())) <= orig.len() - rest.len(),
            nodes_model(rest@) == orig.subrange(orig.len() - rest.len(), orig.len() as int),
            nodes_model(done@) == split_nodes(orig.subrange(0, orig.len() - rest.len()), w0 as int),
            inits_model(graph.initializers@) == g0.initializers + split_inits(
                orig.subrange(0, orig.len() - rest.len()),
                w0 as int,
            ),
            strings_model(graph.inputs@) == g0.inputs,
            strings_model(graph.outputs@) == g0.outputs,
        decreases rest.len(),
    {
        let ghost i = orig.len() - rest.len();
        let ghost rest0 = rest@;
        let node = rest.remove(0);
        assert(node@ == orig[i]) by {
            assert(nodes_model(rest0)[0] == orig[i]);
        }
        assert(node_width(orig[i]) <= w0);
        assert(w < width_limit()) by {
            assert(w0 <= usize::MAX);
            assert(8 * count_splits(orig.subrange(0, i)) <= 8 * orig.len());
        }
        let split = split_padded_pool(node, w, &mut done, &mut graph.initializers);
        assert(orig.subrange(0, i + 1).drop_last() =~= orig.subrange(0, i));
        assert(orig.subrange(0, i + 1).last() == orig[i]);
        if split {
            w = w + 8;
        }
        assert(rest@ == rest0.remove(0));
        assert(nodes_model(rest@) =~= nodes_model(rest0).subrange(1, rest0.len() as int));
        assert(nodes_model(rest@) =~= orig.subrange(i + 1, orig.len() as int));
    }
    assert(orig.subrange(0, orig.len() as int) =~= orig);
    graph.nodes = done;
}

/// Replaces every `Resize` node that has an input and keeps that input's shape
/// by an `Identity` over its first input, keeping its name and outputs; every
/// other node is left unchanged.
pub fn patch_resize_identity(graph: &mut Graph)
    ensures
        final(graph)@ == patch_resize_spec(old(graph)@),
{
    let ghost g0 = graph@;
    let resize = String::from_str("Resize");
    let mut i: usize = 0;
    while i < graph.nodes.len()
        invariant
            i <= graph.nodes.len(),
            graph.nodes.len() == g0.nodes.len(),
            forall|j: int| 0 <= j < i ==> #[trigger] graph@.nodes[j] == resize_to_identity(g0.nodes[j]),
            forall|j: int| i <= j < graph.nodes.len() ==> #[trigger] graph@.nodes[j] == g0.nodes[j],
            graph@.initializers == g0.initializers,
            graph@.inputs == g0.inputs,
            graph@.outputs == g0.outputs,
            resize@ == "Resize"@,
        decreases graph.nodes.len() - i,
    {
        let ghost before = graph.nodes@;
        assert(graph@.nodes[i as int] == g0.nodes[i as int]);
        let mut node = graph.nodes.remove(i);
        assert(node@ == g0.nodes[i as int]);
        if node.op_type == resize && node.inputs.len() > 0 && node.keeps_input_shape {
            node.op_type = String::from_str("Identity");
            node.inputs.truncate(1);
            assert(node@.inputs =~= g0.nodes[i as int].inputs.subrange(0, 1));
        }
        assert(node@ == resize_to_identity(g0.nodes[i as int]));
        graph.nodes.insert(i, node);
        assert(graph.nodes@ =~= before.update(i as int, node));
        assert(nodes_model(graph.nodes@) =~= nodes_model(before).update(i as int, node@));
        i += 1;
    }
    assert(graph@.nodes =~= g0.nodes.map_values(|n: NodeModel| resize_to_identity(n)));
}

/// Makes a loaded graph runnable on the local backend: explicit padding in
/// front of padded pooling nodes, then `Identity` in place of `Resize`.
pub fn rewrite_graph(graph: &mut Graph)
    ensures
        final(graph)@ == rewrite_spec(old(graph)@),
{
    patch_maxpool_padding(graph);
    patch_resize_identity(graph);
}

/// A node that neither rewrite changes.
pub open spec fn settled(n: NodeModel) -> bool {
    !splits(n) && resize_to_identity(n) == n
}

proof fn lemma_op_names_differ()
    ensures
        "Pad"@ != "MaxPool"@,
        "Identity"@ != "MaxPool"@,
        "Identity"@ != "Resize"@,
        "MaxPool"@ != "Resize"@,
        "Pad"@ != "Resize"@,
{
    reveal_strlit("Pad");
    reveal_strlit("MaxPool");
    reveal_strlit("Identity");
    reveal_strlit("Resize");
    assert("Pad"@.len() != "MaxPool"@.len());
    assert("Identity"@.len() != "MaxPool"@.len());
    assert("Identity"@.len() != "Resize"@.len());
    assert("MaxPool"@.len() != "Resize"@.len());
    assert("Pad"@[0] != "Resize"@[0]);
}

proof fn lemma_find_attr_update(attrs: Seq<AttrModel>, name: Seq<char>, k: int, a: AttrModel)
    requires
        0 <= k < attrs.len(),
        a.name == attrs[k].name,
    ensures
        find_attr(attrs.update(k, a), name) == find_attr(attrs, name),
{
    lemma_find_attr(attrs, name);
    let f = find_attr(attrs, name);
    let u = attrs.update(k, a);
    assert forall|j: int| 0 <= j < u.len() && (f < 0 || j < f) implies u[j].name != name by {
        assert(u[j].name == attrs[j].name);
    }
    lemma_find_attr_at(u, name, f);
}

proof fn lemma_expand_settles(n: NodeModel, w: int)
    ensures
        forall|i: int| 0 <= i < expand(n, w).len() ==> settled(#[trigger] resize_to_identity(expand(n, w)[i])),
{
    lemma_op_names_differ();
    if splits(n) {
        let u = unpadded_pool(n, w);
        let k = pads_index(n);
        lemma_find_attr(n.attributes, "pads"@);
        lemma_find_attr_update(
            n.attributes,
            "pads"@,
            k,
            AttrModel { ints: zeros_spec(n.attributes[k].ints.len()), ..n.attributes[k] },
        );
        assert(pads_index(u) == k);
        assert(!has_nonzero_spec(pads_of(u)));
        assert(resize_to_identity(u) == u);
        assert(resize_to_identity(pad_node(n, w)) == pad_node(n, w));
    }
}

proof fn lemma_split_settles(nodes: Seq<NodeModel>, w0: int)
    ensures
        forall|i: int|
            0 <= i < split_nodes(nodes, w0).len() ==> settled(#[trigger] resize_to_identity(split_nodes(nodes, w0)[i])),
    decreases nodes.len(),
{
    if nodes.len() > 0 {
        let w = width_after(nodes.drop_last(), w0);
        lemma_split_settles(nodes.drop_last(), w0);
        lemma_expand_settles(nodes.last(), w);
        let front = split_nodes(nodes.drop_last(), w0);
        let back = expand(nodes.last(), w);
        assert forall|i: int| 0 <= i < split_nodes(nodes, w0).len() implies settled(
            #[trigger] resize_to_identity(split_nodes(nodes, w0)[i]),
        ) by {
            if i < front.len() {
                assert(split_nodes(nodes, w0)[i] == front[i]);
            } else {
                assert(split_nodes(nodes, w0)[i] == back[i - front.len()]);
            }
        }
    }
}

proof fn lemma_split_settled_noop(nodes: Seq<NodeModel>, w0: int)
    requires
        forall|i: int| 0 <= i < nodes.len() ==> !splits(#[trigger] nodes[i]),
    ensures
        split_nodes(nodes, w0) == nodes,
        split_inits(nodes, w0) == Seq::<InitModel>::empty(),
    decreases nodes.len(),
{
    if nodes.len() > 0 {
        let front = nodes.drop_last();
        assert forall|i: int| 0 <= i < front.len() implies !splits(#[trigger] front[i]) by {
            assert(front[i] == nodes[i]);
        }
        lemma_split_settled_noop(front, w0);
        assert(!splits(nodes[nodes.len() - 1]));
        assert(split_nodes(nodes, w0) =~= nodes);
        assert(split_inits(nodes, w0) =~= Seq::<InitModel>::empty());
    }
}

/// Rewriting is idempotent: a second pass over a rewritten graph changes nothing,
/// since padding is already zero and no rewritable `Resize` is left.
pub proof fn lemma_rewrite_idempotent(g: GraphModel)
    ensures
        rewrite_spec(rewrite_spec(g)) == rewrite_spec(g),
{
    let h = rewrite_spec(g);
    lemma_split_settles(g.nodes, name_width(g) as int);
    assert forall|i: int| 0 <= i < h.nodes.len() implies !splits(#[trigger] h.nodes[i]) by {
        assert(h.nodes[i] == resize_to_identity(split_nodes(g.nodes, name_width(g) as int)[i]));
        assert(settled(h.nodes[i]));
    }
    assert forall|i: int| 0 <= i < h.nodes.len() implies resize_to_identity(#[trigger] h.nodes[i]) == h.nodes[i] by {
        assert(h.nodes[i] == resize_to_identity(split_nodes(g.nodes, name_width(g) as int)[i]));
        assert(settled(h.nodes[i]));
    }
    lemma_split_settled_noop(h.nodes, name_width(h) as int);
    let p = patch_maxpool_spec(h);
    assert(p.initializers =~= h.initializers);
    assert(p == h);
    assert(patch_resize_spec(h).nodes =~= h.nodes);
}

/// The padding pass alone is idempotent: after it no pooling node has padding
/// left to move, so a second pass changes nothing.
pub proof fn lemma_patch_maxpool_idempotent(g: GraphModel)
    ensures
        patch_maxpool_spec(patch_maxpool_spec(g)) == patch_maxpool_spec(g),
{
    let p = patch_maxpool_spec(g);
    let w0 = name_width(g) as int;
    lemma_op_names_differ();
    lemma_split_settles(g.nodes, w0);
    assert forall|i: int| 0 <= i < p.nodes.len() implies !splits(#[trigger] p.nodes[i]) by {
        assert(settled(resize_to_identity(split_nodes(g.nodes, w0)[i])));
    }
    lemma_split_settled_noop(p.nodes, name_width(p) as int);
    assert(patch_maxpool_spec(p).initializers =~= p.initializers);
}

proof fn lemma_max_len(s: Seq<Seq<char>>)
    ensures
        forall|i: int| 0 <= i < s.len() ==> (#[trigger] s[i]).len() <= max_len(s),
    decreases s.len(),
{
    if s.len() > 0 {
        lemma_max_len(s.drop_last());
        assert forall|i: int| 0 <= i < s.len() implies (#[trigger] s[i]).len() <= max_len(s) by {
            if i < s.len() - 1 {
                assert(s[i] == s.drop_last()[i]);
            }
        }
    }
}

proof fn lemma_nodes_width(nodes: Seq<NodeModel>)
    ensures
        forall|i: int| 0 <= i < nodes.len() ==> node_width(#[trigger] nodes[i]) <= nodes_width(nodes),
    decreases nodes.len(),
{
    if nodes.len() > 0 {
        lemma_nodes_width(nodes.drop_last());
        assert forall|i: int| 0 <= i < nodes.len() implies node_width(#[trigger] nodes[i]) <= nodes_width(nodes) by {
            if i < nodes.len() - 1 {
                assert(nodes[i] == nodes.drop_last()[i]);
            }
        }
    }
}

proof fn lemma_inits_width(inits: Seq<InitModel>)
    ensures
        forall|i: int| 0 <= i < inits.len() ==> (#[trigger] inits[i]).name.len() <= inits_width(inits),
    decreases inits.len(),
{
    if inits.len() > 0 {
        lemma_inits_width(inits.drop_last());
        assert forall|i: int| 0 <= i < inits.len() implies (#[trigger] inits[i]).name.len() <= inits_width(inits) by {
            if i < inits.len() - 1 {
                assert(inits[i] == inits.drop_last()[i]);
            }
        }
    }
}

/// No name of the graph is longer than its name width.
proof fn lemma_name_width_bound(g: GraphModel, s: Seq<char>)
    requires
        name_in_graph(g, s),
    ensures
        s.len() <= name_width(g),
{
    lemma_nodes_width(g.nodes);
    lemma_inits_width(g.initializers);
    lemma_max_len(g.inputs);
    lemma_max_len(g.outputs);
    if exists|i: int|
        0 <= i < g.nodes.len() && (#[trigger] g.nodes[i].name == s || g.nodes[i].inputs.contains(s)
            || g.nodes[i].outputs.contains(s)) {
        let i = choose|i: int|
            0 <= i < g.nodes.len() && (#[trigger] g.nodes[i].name == s || g.nodes[i].inputs.contains(s)
                || g.nodes[i].outputs.contains(s));
        let n = g.nodes[i];
        lemma_max_len(n.inputs);
        lemma_max_len(n.outputs);
        assert(node_width(n) <= nodes_width(g.nodes));
        if n.inputs.contains(s) {
            let j = choose|j: int| 0 <= j < n.inputs.len() && n.inputs[j] == s;
            assert(n.inputs[j].len() <= max_len(n.inputs));
        } else if n.outputs.contains(s) {
            let j = choose|j: int| 0 <= j < n.outputs.len() && n.outputs[j] == s;
            assert(n.outputs[j].len() <= max_len(n.outputs));
        }
    } else if g.inputs.contains(s) {
        let j = choose|j: int| 0 <= j < g.inputs.len() && g.inputs[j] == s;
        assert(g.inputs[j].len() <= max_len(g.inputs));
    } else if g.outputs.contains(s) {
        let j = choose|j: int| 0 <= j < g.outputs.len() && g.outputs[j] == s;
        assert(g.outputs[j].len() <= max_len(g.outputs));
    } else {
        let i = choose|i: int| 0 <= i < g.initializers.len() && #[trigger] g.initializers[i].name == s;
        assert(g.initializers[i].name.len() <= inits_width(g.initializers));
    }
}

/// Length of the suffix of the `r`-th name a split node adds.
pub open spec fn suffix_len(r: int) -> int {
    if r == 0 {
        3
    } else if r == 1 {
        7
    } else {
        4
    }
}

proof fn lemma_added_lengths(nodes: Seq<NodeModel>, w0: int)
    requires
        w0 >= 0,
        forall|i: int| 0 <= i < nodes.len() ==> (#[trigger] nodes[i]).name.len() <= w0,
    ensures
        added_names(nodes, w0).len() == 3 * count_splits(nodes),
        forall|k: int|
            0 <= k < added_names(nodes, w0).len() ==> (#[trigger] added_names(nodes, w0)[k]).len() == w0 + 8 * (k
                / 3) + 1 + suffix_len(k % 3),
    decreases nodes.len(),
{
    if nodes.len() > 0 {
        let front = nodes.drop_last();
        assert forall|i: int| 0 <= i < front.len() implies (#[trigger] front[i]).name.len() <= w0 by {
            assert(front[i] == nodes[i]);
        }
        lemma_added_lengths(front, w0);
        let n = nodes.last();
        assert(n == nodes[nodes.len() - 1]);
        let c = count_splits(front);
        let w = width_after(front, w0);
        let a = added_names(front, w0);
        if splits(n) {
            reveal_strlit("pad");
            reveal_strlit("pad_out");
            reveal_strlit("pads");
            assert(stem(n.name, w).len() == w + 1);
            assert forall|k: int| 0 <= k < added_names(nodes, w0).len() implies (#[trigger] added_names(
                nodes,
                w0,
            )[k]).len() == w0 + 8 * (k / 3) + 1 + suffix_len(k % 3) by {
                if k < a.len() {
                    assert(added_names(nodes, w0)[k] == a[k]);
                } else {
                    let r = k - 3 * c;
                    assert(0 <= r < 3);
                    assert(k / 3 == c && k % 3 == r) by (nonlinear_arith)
                        requires
                            k == 3 * c + r,
                            0 <= r < 3,
                    ;
                    assert(added_names(nodes, w0)[k] == expand_names(n, w)[r]);
                }
            }
        } else {
            assert(added_names(nodes, w0) =~= a);
        }
    }
}

/// The names the padding rewrite adds are all different from each other and
/// from every name already in the graph.
pub proof fn lemma_padding_names_fresh(g: GraphModel)
    ensures
        added_names(g.nodes, name_width(g) as int).no_duplicates(),
        forall|k: int|
            0 <= k < added_names(g.nodes, name_width(g) as int).len() ==> !name_in_graph(
                g,
                #[trigger] added_names(g.nodes, name_width(g) as int)[k],
            ),
{
    let w0 = name_width(g) as int;
    let names = added_names(g.nodes, w0);
    lemma_nodes_width(g.nodes);
    assert forall|i: int| 0 <= i < g.nodes.len() implies (#[trigger] g.nodes[i]).name.len() <= w0 by {
        assert(node_width(g.nodes[i]) <= nodes_width(g.nodes));
    }
    lemma_added_lengths(g.nodes, w0);
    assert forall|k: int| 0 <= k < names.len() implies !name_in_graph(g, #[trigger] names[k]) by {
        assert(names[k].len() > w0) by (nonlinear_arith)
            requires
                names[k].len() == w0 + 8 * (k / 3) + 1 + suffix_len(k % 3),
                k >= 0,
                suffix_len(k % 3) >= 3,
        ;
        if name_in_graph(g, names[k]) {
            lemma_name_width_bound(g, names[k]);
        }
    }
    assert forall|i: int, j: int| 0 <= i < names.len() && 0 <= j < names.len() && i != j implies names[i]
        != names[j] by {
        let qi = i / 3;
        let qj = j / 3;
        let ri = i % 3;
        let rj = j % 3;
        assert(i == 3 * qi + ri && 0 <= ri < 3 && j == 3 * qj + rj && 0 <= rj < 3);
        assert(names[i].len() != names[j].len());
    }
}

/// A 3×3 pooling node padded by one on every side becomes two nodes: a `Pad` node
/// reading the pool's input as loaded with amounts `[0,0,1,1,0,0,1,1]` in
/// reflect mode, then the pool with zero padding reading the `Pad` output; for
/// this kernel reflect padding is exact on both axes.
pub proof fn lemma_unit_padding_split(n: NodeModel, w: int)
    requires
        n.op_type == "MaxPool"@,
        n.inputs.len() > 0,
        pads_index(n) >= 0,
        pads_of(n) == seq![1i64, 1i64, 1i64, 1i64],
        kernel_index(n) >= 0,
        n.attributes[kernel_index(n)].ints == seq![3i64, 3i64],
    ensures
        split_nodes(seq![n], w) == seq![pad_node(n, w), unpadded_pool(n, w)],
        split_inits(seq![n], w) == seq![pad_initializer(n, w)],
        pad_initializer(n, w).int64_data == seq![0i64, 0i64, 1i64, 1i64, 0i64, 0i64, 1i64, 1i64],
        pad_node(n, w).inputs[0] == n.inputs[0],
        pad_node(n, w).inputs[1] == pad_initializer(n, w).name,
        pad_node(n, w).attributes == seq![reflect_mode_attr()],
        unpadded_pool(n, w).inputs[0] == pad_node(n, w).outputs[0],
        pads_index(unpadded_pool(n, w)) == pads_index(n),
        pads_of(unpadded_pool(n, w)) == seq![0i64, 0i64, 0i64, 0i64],
        reflect_exact(pads_of(n), n.attributes[kernel_index(n)].ints),
{
    assert(pads_of(n)[0] != 0);
    assert(axis_exact(pads_of(n), n.attributes[kernel_index(n)].ints, 0));
    assert(axis_exact(pads_of(n), n.attributes[kernel_index(n)].ints, 1));
    assert(reflect_exact(pads_of(n), n.attributes[kernel_index(n)].ints));
    assert(splits(n));
    let k = pads_index(n);
    lemma_find_attr(n.attributes, "pads"@);
    lemma_find_attr_update(
        n.attributes,
        "pads"@,
        k,
        AttrModel { ints: zeros_spec(n.attributes[k].ints.len()), ..n.attributes[k] },
    );
    let e = Seq::<NodeModel>::empty();
    assert(seq![n].drop_last() =~= e);
    assert(seq![n].last() == n);
    assert(count_splits(e) == 0);
    assert(split_nodes(e, w) == e);
    assert(split_inits(e, w) == Seq::<InitModel>::empty());
    assert(expand(n, w) == seq![pad_node(n, w), unpadded_pool(n, w)]);
    assert(split_nodes(seq![n], w) =~= seq![pad_node(n, w), unpadded_pool(n, w)]);
    assert(split_inits(seq![n], w) =~= seq![pad_initializer(n, w)]);
    assert(explicit_pads(pads_of(n)) =~= seq![0i64, 0i64, 1i64, 1i64, 0i64, 0i64, 1i64, 1i64]);
    assert(pads_of(unpadded_pool(n, w)) =~= seq![0i64, 0i64, 0i64, 0i64]);
}

} // verus!
