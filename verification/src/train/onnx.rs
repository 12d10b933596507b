//! Writes the trained network as an ONNX model: convolutions, pooling over
//! time, two dense layers and a softmax, with the weights as initialisers. The
//! batch normalisation is already part of the convolution weights.
//!
//! The messages of the format are those of `tract_onnx::pb`, and `prost` turns
//! them into bytes.

use super::proto;
use crate::classify;
use crate::text;
use crate::wire;
use tract_onnx::pb;
use vstd::prelude::*;

verus! {

/// Name of the network's input.
pub const INPUT: &'static str = "features";

/// Name of its output.
pub const OUTPUT: &'static str = "probabilities";

/// Number of convolutions.
pub const CONVS: usize = 4;

/// Every convolution halves the length.
pub const STRIDE: i64 = 2;

/// Kernel width of convolution `i`.
pub open spec fn kernel(i: int) -> i64 {
    if i == 0 {
        7
    } else if i == 1 || i == 2 {
        5
    } else {
        3
    }
}

/// Width of the hidden dense layer.
pub const HIDDEN: usize = 64;

/// Input channels, output channels and kernel width of convolution `i`.
pub open spec fn conv_shape_of(i: int) -> (int, int, int) {
    if i == 0 {
        (classify::CHANNELS as int, 32, 7)
    } else if i == 1 {
        (32, 48, 5)
    } else if i == 2 {
        (48, 64, 5)
    } else {
        (64, 64, 3)
    }
}

/// Input channels, output channels and kernel width of convolution `i`.
pub fn conv_shape(i: usize) -> (r: (usize, usize, usize))
    requires
        i < CONVS,
    ensures
        (r.0 as int, r.1 as int, r.2 as int) == conv_shape_of(i as int),
{
    if i == 0 {
        (classify::CHANNELS, 32, 7)
    } else if i == 1 {
        (32, 48, 5)
    } else if i == 2 {
        (48, 64, 5)
    } else {
        (64, 64, 3)
    }
}

/// The first convolution takes the feature channels, every other one what the
/// one before it puts out, and the exported kernel is the trained one.
pub proof fn law_layers_fit(i: int)
    requires
        0 <= i < CONVS,
    ensures
        i == 0 ==> conv_shape_of(i).0 == classify::CHANNELS,
        i > 0 ==> conv_shape_of(i).0 == conv_shape_of(i - 1).1,
        conv_shape_of(i).2 == kernel(i),
{
}

/// An attribute of a node.
pub struct Attribute {
    pub name: String,
    pub value: AttributeValue,
}

pub enum AttributeValue {
    Int(i64),
    Ints(Vec<i64>),
}

/// What an [`Attribute`] holds.
#[verifier::ext_equal]
pub struct AttributeView {
    pub name: Seq<char>,
    pub value: ValueView,
}

#[verifier::ext_equal]
pub enum ValueView {
    Int(i64),
    Ints(Seq<i64>),
}

impl View for Attribute {
    type V = AttributeView;

    open spec fn view(&self) -> AttributeView {
        AttributeView {
            name: self.name@,
            value: match self.value {
                AttributeValue::Int(v) => ValueView::Int(v),
                AttributeValue::Ints(v) => ValueView::Ints(v@),
            },
        }
    }
}

/// A step of the computation. Its output has the node's name.
pub struct Node {
    pub op_type: String,
    pub inputs: Vec<String>,
    pub output: String,
    pub attributes: Vec<Attribute>,
}

/// What a [`Node`] holds.
#[verifier::ext_equal]
pub struct NodeView {
    pub op_type: Seq<char>,
    pub inputs: Seq<Seq<char>>,
    pub output: Seq<char>,
    pub attributes: Seq<AttributeView>,
}

/// The views of attributes.
pub open spec fn attribute_views(a: Seq<Attribute>) -> Seq<AttributeView> {
    a.map_values(|x: Attribute| x@)
}

impl View for Node {
    type V = NodeView;

    open spec fn view(&self) -> NodeView {
        NodeView {
            op_type: self.op_type@,
            inputs: text::views(self.inputs@),
            output: self.output@,
            attributes: attribute_views(self.attributes@),
        }
    }
}

/// The views of nodes.
pub open spec fn node_views(n: Seq<Node>) -> Seq<NodeView> {
    n.map_values(|x: Node| x@)
}

/// A name with the number of a layer in it.
pub open spec fn numbered(front: Seq<char>, i: int, back: Seq<char>) -> Seq<char> {
    front + text::decimal(i as nat) + back
}

fn number(front: &str, i: usize, back: &str) -> (r: String)
    ensures
        r@ == numbered(front@, i as int, back@),
{
    let mut r = String::new();
    text::push_str(&mut r, front);
    text::push_decimal(&mut r, i as u64);
    text::push_str(&mut r, back);
    assert(r@ =~= numbered(front@, i as int, back@));
    r
}

/// What goes into convolution `i`.
pub open spec fn conv_input(i: int) -> Seq<char> {
    if i == 0 {
        INPUT@
    } else {
        numbered("relu"@, i - 1, ".out"@)
    }
}

/// Convolution `i`, padded so that only the stride shortens the signal.
pub open spec fn conv_node(i: int) -> NodeView {
    let pad = (kernel(i) / 2) as i64;
    NodeView {
        op_type: "Conv"@,
        inputs: seq![
            conv_input(i),
            numbered("conv"@, i, ".weight"@),
            numbered("conv"@, i, ".bias"@),
        ],
        output: numbered("conv"@, i, ".out"@),
        attributes: seq![
            AttributeView { name: "kernel_shape"@, value: ValueView::Ints(seq![kernel(i)]) },
            AttributeView { name: "pads"@, value: ValueView::Ints(seq![pad, pad]) },
            AttributeView { name: "strides"@, value: ValueView::Ints(seq![STRIDE]) },
            AttributeView { name: "dilations"@, value: ValueView::Ints(seq![1i64]) },
            AttributeView { name: "group"@, value: ValueView::Int(1) },
        ],
    }
}

/// The rectifier behind convolution `i`.
pub open spec fn relu_node(i: int) -> NodeView {
    NodeView {
        op_type: "Relu"@,
        inputs: seq![numbered("conv"@, i, ".out"@)],
        output: numbered("relu"@, i, ".out"@),
        attributes: Seq::empty(),
    }
}

/// The first `n` convolutions with their rectifiers.
pub open spec fn conv_nodes(n: nat) -> Seq<NodeView>
    decreases n,
{
    if n == 0 {
        Seq::empty()
    } else {
        conv_nodes((n - 1) as nat).push(conv_node(n - 1)).push(relu_node(n - 1))
    }
}

/// A node with at most one integer attribute.
pub open spec fn simple_node(
    op_type: Seq<char>,
    inputs: Seq<Seq<char>>,
    output: Seq<char>,
    attribute: Option<(Seq<char>, i64)>,
) -> NodeView {
    NodeView {
        op_type,
        inputs,
        output,
        attributes: match attribute {
            Some((name, v)) => seq![AttributeView { name, value: ValueView::Int(v) }],
            None => Seq::empty(),
        },
    }
}

/// Pooling and dense layers behind the convolutions.
pub open spec fn head_nodes() -> Seq<NodeView> {
    let last = numbered("relu"@, CONVS - 1, ".out"@);
    seq![
        simple_node("GlobalAveragePool"@, seq![last], "mean.out"@, None),
        simple_node("GlobalMaxPool"@, seq![last], "max.out"@, None),
        simple_node("Concat"@, seq!["mean.out"@, "max.out"@], "pool.out"@, Some(("axis"@, 1i64))),
        simple_node("Flatten"@, seq!["pool.out"@], "flat.out"@, Some(("axis"@, 1i64))),
        simple_node(
            "Gemm"@,
            seq!["flat.out"@, "fc1.weight"@, "fc1.bias"@],
            "fc1.out"@,
            Some(("transB"@, 1i64)),
        ),
        simple_node("Relu"@, seq!["fc1.out"@], "fc1.relu"@, None),
        simple_node(
            "Gemm"@,
            seq!["fc1.relu"@, "fc2.weight"@, "fc2.bias"@],
            "logits"@,
            Some(("transB"@, 1i64)),
        ),
        simple_node("Softmax"@, seq!["logits"@], OUTPUT@, Some(("axis"@, 1i64))),
    ]
}

/// The nodes of the network in the order of their computation.
pub open spec fn network_nodes() -> Seq<NodeView> {
    conv_nodes(CONVS as nat) + head_nodes()
}

fn ints(name: &str, v: Vec<i64>) -> (r: Attribute)
    ensures
        r@ == (AttributeView { name: name@, value: ValueView::Ints(v@) }),
{
    Attribute { name: text::copied(name), value: AttributeValue::Ints(v) }
}

fn conv(i: usize) -> (r: Node)
    requires
        i < CONVS,
    ensures
        r@ == conv_node(i as int),
{
    let k: i64 = if i == 0 {
        7
    } else if i <= 2 {
        5
    } else {
        3
    };
    let pad: i64 = k / 2;
    let input: String = if i == 0 {
        text::copied(INPUT)
    } else {
        number("relu", i - 1, ".out")
    };
    let inputs: Vec<String> = vec![input, number("conv", i, ".weight"), number("conv", i, ".bias")];
    let attributes: Vec<Attribute> = vec![
        ints("kernel_shape", vec![k]),
        ints("pads", vec![pad, pad]),
        ints("strides", vec![STRIDE]),
        ints("dilations", vec![1]),
        Attribute { name: text::copied("group"), value: AttributeValue::Int(1) },
    ];
    let r = Node {
        op_type: text::copied("Conv"),
        inputs,
        output: number("conv", i, ".out"),
        attributes,
    };
    assert(r@.inputs =~= conv_node(i as int).inputs);
    assert(r@.attributes =~~= conv_node(i as int).attributes);
    r
}

fn relu(i: usize) -> (r: Node)
    ensures
        r@ == relu_node(i as int),
{
    let inputs: Vec<String> = vec![number("conv", i, ".out")];
    let r = Node {
        op_type: text::copied("Relu"),
        inputs,
        output: number("relu", i, ".out"),
        attributes: Vec::new(),
    };
    assert(r@.inputs =~= relu_node(i as int).inputs);
    assert(r@.attributes =~= relu_node(i as int).attributes);
    r
}

/// A node with at most one integer attribute.
fn op(op_type: &str, inputs: Vec<String>, output: &str, attribute: Option<(&str, i64)>) -> (r: Node)
    ensures
        r@ == simple_node(
            op_type@,
            text::views(inputs@),
            output@,
            match attribute {
                Some((name, v)) => Some((name@, v)),
                None => None,
            },
        ),
{
    let mut attributes: Vec<Attribute> = Vec::new();
    if let Some((name, v)) = attribute {
        attributes.push(Attribute { name: text::copied(name), value: AttributeValue::Int(v) });
    }
    let r = Node { op_type: text::copied(op_type), inputs, output: text::copied(output), attributes };
    proof {
        match attribute {
            Some((name, v)) => {
                assert(r@.attributes =~= seq![
                    AttributeView { name: name@, value: ValueView::Int(v) },
                ]);
            },
            None => {
                assert(r@.attributes =~= Seq::<AttributeView>::empty());
            },
        }
    }
    r
}

fn one(a: &str) -> (r: Vec<String>)
    ensures
        text::views(r@) == seq![a@],
{
    let r: Vec<String> = vec![text::copied(a)];
    assert(text::views(r@) =~= seq![a@]);
    r
}

fn two(a: &str, b: &str) -> (r: Vec<String>)
    ensures
        text::views(r@) == seq![a@, b@],
{
    let r: Vec<String> = vec![text::copied(a), text::copied(b)];
    assert(text::views(r@) =~= seq![a@, b@]);
    r
}

fn three(a: &str, b: &str, c: &str) -> (r: Vec<String>)
    ensures
        text::views(r@) == seq![a@, b@, c@],
{
    let r: Vec<String> = vec![text::copied(a), text::copied(b), text::copied(c)];
    assert(text::views(r@) =~= seq![a@, b@, c@]);
    r
}

fn head() -> (r: Vec<Node>)
    ensures
        node_views(r@) == head_nodes(),
{
    let last: String = number("relu", CONVS - 1, ".out");
    let mut r: Vec<Node> = Vec::new();
    r.push(op("GlobalAveragePool", one(&last), "mean.out", None));
    r.push(op("GlobalMaxPool", one(&last), "max.out", None));
    r.push(op("Concat", two("mean.out", "max.out"), "pool.out", Some(("axis", 1))));
    r.push(op("Flatten", one("pool.out"), "flat.out", Some(("axis", 1))));
    r.push(
        op("Gemm", three("flat.out", "fc1.weight", "fc1.bias"), "fc1.out", Some(("transB", 1))),
    );
    r.push(op("Relu", one("fc1.out"), "fc1.relu", None));
    r.push(op("Gemm", three("fc1.relu", "fc2.weight", "fc2.bias"), "logits", Some(("transB", 1))));
    r.push(op("Softmax", one("logits"), OUTPUT, Some(("axis", 1))));
    assert(node_views(r@) =~= head_nodes());
    r
}

/// The nodes of the network in the order of their computation.
pub fn network() -> (r: Vec<Node>)
    ensures
        node_views(r@) == network_nodes(),
{
    let mut r: Vec<Node> = Vec::new();
    let mut i: usize = 0;
    while i < CONVS
        invariant
            i <= CONVS,
            node_views(r@) =~= conv_nodes(i as nat),
        decreases CONVS - i,
    {
        let ghost before = node_views(r@);
        r.push(conv(i));
        assert(node_views(r@) =~= before.push(conv_node(i as int)));
        r.push(relu(i));
        assert(node_views(r@) =~= before.push(conv_node(i as int)).push(relu_node(i as int)));
        i += 1;
    }
    let ghost front = node_views(r@);
    let mut tail: Vec<Node> = head();
    let ghost back = tail@;
    r.append(&mut tail);
    assert(node_views(r@) =~= front + node_views(back));
    r
}

/// Names of the weights that the network needs: two per convolution and two
/// per dense layer.
pub open spec fn is_weight_name(s: Seq<char>) -> bool {
    ||| exists|i: int| 0 <= i < CONVS && s == #[trigger] numbered("conv"@, i, ".weight"@)
    ||| exists|i: int| 0 <= i < CONVS && s == #[trigger] numbered("conv"@, i, ".bias"@)
    ||| s == "fc1.weight"@ || s == "fc1.bias"@ || s == "fc2.weight"@ || s == "fc2.bias"@
}

/// `s` is the output of one of the first `n` nodes.
pub open spec fn is_computed(nodes: Seq<NodeView>, n: int, s: Seq<char>) -> bool {
    exists|j: int| 0 <= j < n && (#[trigger] nodes[j]).output == s
}

/// What node `j` reads is known when it is computed.
pub open spec fn is_wired(nodes: Seq<NodeView>, j: int) -> bool {
    forall|k: int|
        #![trigger nodes[j].inputs[k]]
        0 <= k < nodes[j].inputs.len() ==> {
            let s = nodes[j].inputs[k];
            s == INPUT@ || is_weight_name(s) || is_computed(nodes, j, s)
        }
}

proof fn lemma_conv_nodes(n: nat, i: int)
    requires
        0 <= i < n,
    ensures
        conv_nodes(n).len() == 2 * n,
        conv_nodes(n)[2 * i] == conv_node(i),
        conv_nodes(n)[2 * i + 1] == relu_node(i),
    decreases n,
{
    if n > 1 {
        lemma_conv_nodes((n - 1) as nat, if i < n - 1 {
            i
        } else {
            0
        });
    } else {
        assert(conv_nodes(0).len() == 0);
    }
}

/// The nodes are in order: each reads only the input of the network, weights,
/// and what nodes before it have computed. The last one computes the output.
pub proof fn law_network_is_wired(j: int)
    requires
        0 <= j < network_nodes().len(),
    ensures
        is_wired(network_nodes(), j),
        network_nodes().len() == 2 * CONVS + 8,
        network_nodes().last().output == OUTPUT@,
{
    let all = network_nodes();
    let c = 2 * CONVS as int;
    lemma_conv_nodes(CONVS as nat, 0);
    if j < c {
        let i = j / 2;
        lemma_conv_nodes(CONVS as nat, i);
        if j % 2 == 0 {
            assert(all[j] == conv_node(i));
            if i > 0 {
                lemma_conv_nodes(CONVS as nat, i - 1);
                assert(all[j - 1] == relu_node(i - 1));
                assert(all[j - 1].output == conv_input(i));
            }
            assert(numbered("conv"@, i, ".weight"@) == all[j].inputs[1]);
            assert(numbered("conv"@, i, ".bias"@) == all[j].inputs[2]);
        } else {
            lemma_conv_nodes(CONVS as nat, i);
            assert(all[j] == relu_node(i));
            assert(all[j - 1] == conv_node(i));
            assert(all[j - 1].output == all[j].inputs[0]);
        }
    } else {
        let h = head_nodes();
        assert(all[j] == h[j - c]);
        lemma_conv_nodes(CONVS as nat, CONVS - 1);
        assert(all[c - 1] == relu_node(CONVS - 1));
        assert(all[c] == h[0] && all[c + 1] == h[1] && all[c + 2] == h[2] && all[c + 3] == h[3]);
        assert(all[c + 4] == h[4] && all[c + 5] == h[5] && all[c + 6] == h[6]);
    }
}

/// Message of an attribute.
pub open spec fn attribute_message(a: AttributeView) -> pb::AttributeProto {
    match a.value {
        ValueView::Int(v) => proto::int_attribute(a.name, v),
        ValueView::Ints(v) => proto::ints_attribute(a.name, v),
    }
}

/// Message of a node.
pub open spec fn node_message(n: NodeView) -> pb::NodeProto {
    proto::node_proto(
        n.op_type,
        n.output,
        n.inputs,
        seq![n.output],
        n.attributes.map_values(|a: AttributeView| attribute_message(a)),
    )
}

fn attribute_of(a: Attribute) -> (r: pb::AttributeProto)
    ensures
        r == attribute_message(a@),
{
    match a.value {
        AttributeValue::Int(v) => proto::int_message(a.name, v),
        AttributeValue::Ints(v) => proto::ints_message(a.name, v),
    }
}

fn node_of(n: Node) -> (r: pb::NodeProto)
    ensures
        r == node_message(n@),
{
    let ghost all = n.attributes@;
    let mut turned: Vec<Attribute> = Vec::new();
    let mut rest: Vec<Attribute> = n.attributes;
    while rest.len() > 0
        invariant
            rest@.len() + turned@.len() == all.len(),
            rest@ == all.take(rest@.len() as int),
            forall|i: int|
                0 <= i < turned@.len() ==> #[trigger] turned@[i] == all[all.len() - 1 - i],
        decreases rest@.len(),
    {
        if let Some(a) = rest.pop() {
            turned.push(a);
        }
    }
    let mut attribute: Vec<pb::AttributeProto> = Vec::new();
    while turned.len() > 0
        invariant
            attribute@.len() + turned@.len() == all.len(),
            forall|i: int|
                0 <= i < turned@.len() ==> #[trigger] turned@[i] == all[all.len() - 1 - i],
            forall|i: int|
                0 <= i < attribute@.len() ==> #[trigger] attribute@[i] == attribute_message(
                    all[i]@,
                ),
        decreases turned@.len(),
    {
        if let Some(a) = turned.pop() {
            attribute.push(attribute_of(a));
        }
    }
    assert(attribute@ =~= attribute_views(all).map_values(
        |a: AttributeView| attribute_message(a),
    ));
    let name: String = text::copied(&n.output);
    let output: Vec<String> = vec![n.output];
    assert(text::views(output@) =~= seq![n.output@]);
    proto::node(n.op_type, name, n.inputs, output, attribute)
}

fn nodes_of(nodes: Vec<Node>) -> (r: Vec<pb::NodeProto>)
    ensures
        r@ == node_views(nodes@).map_values(|n: NodeView| node_message(n)),
{
    let ghost all = nodes@;
    let mut turned: Vec<Node> = Vec::new();
    let mut rest: Vec<Node> = nodes;
    while rest.len() > 0
        invariant
            rest@.len() + turned@.len() == all.len(),
            rest@ == all.take(rest@.len() as int),
            forall|i: int|
                0 <= i < turned@.len() ==> #[trigger] turned@[i] == all[all.len() - 1 - i],
        decreases rest@.len(),
    {
        if let Some(n) = rest.pop() {
            turned.push(n);
        }
    }
    let mut r: Vec<pb::NodeProto> = Vec::new();
    while turned.len() > 0
        invariant
            r@.len() + turned@.len() == all.len(),
            forall|i: int|
                0 <= i < turned@.len() ==> #[trigger] turned@[i] == all[all.len() - 1 - i],
            forall|i: int| 0 <= i < r@.len() ==> #[trigger] r@[i] == node_message(all[i]@),
        decreases turned@.len(),
    {
        if let Some(n) = turned.pop() {
            r.push(node_of(n));
        }
    }
    assert(r@ =~= node_views(all).map_values(|n: NodeView| node_message(n)));
    r
}

/// A weight tensor: name, shape, and the bits of its values.
pub struct Weight {
    pub name: String,
    pub dims: Vec<usize>,
    pub data: Vec<u32>,
}

/// What a [`Weight`] holds.
#[verifier::ext_equal]
pub struct WeightView {
    pub name: Seq<char>,
    pub dims: Seq<usize>,
    pub data: Seq<u32>,
}

impl View for Weight {
    type V = WeightView;

    open spec fn view(&self) -> WeightView {
        WeightView { name: self.name@, dims: self.dims@, data: self.data@ }
    }
}

/// The views of weights.
pub open spec fn weight_views(w: Seq<Weight>) -> Seq<WeightView> {
    w.map_values(|x: Weight| x@)
}

/// Message of a weight: type 1 is a 32-bit number, its bytes the least
/// significant one first.
pub open spec fn weight_message(w: WeightView) -> pb::TensorProto {
    proto::tensor_proto(
        w.name,
        w.dims.map_values(|d: usize| d as i64),
        1,
        wire::bytes_of_all(w.data),
    )
}

/// Sizes fit into the format.
pub open spec fn has_sizes(w: WeightView) -> bool {
    forall|i: int| 0 <= i < w.dims.len() ==> #[trigger] w.dims[i] <= i64::MAX
}

fn weight_of(w: &Weight) -> (r: pb::TensorProto)
    requires
        has_sizes(w@),
    ensures
        r == weight_message(w@),
{
    let mut dims: Vec<i64> = Vec::new();
    let mut i: usize = 0;
    while i < w.dims.len()
        invariant
            i <= w.dims@.len(),
            dims@ =~= w.dims@.take(i as int).map_values(|d: usize| d as i64),
        decreases w.dims@.len() - i,
    {
        dims.push(w.dims[i] as i64);
        i += 1;
    }
    assert(w.dims@.take(i as int) =~= w.dims@);
    proto::tensor(text::copied(&w.name), dims, 1, wire::bytes(&w.data))
}

/// Description of the input: an open number of windows with their channels.
pub open spec fn input_message() -> pb::ValueInfoProto {
    proto::value_proto(
        INPUT@,
        1,
        seq![
            proto::open_dimension("N"@),
            proto::sized_dimension(classify::CHANNELS as i64),
            proto::sized_dimension(classify::WINDOW as i64),
        ],
    )
}

/// Description of the output: a probability per class for each of them.
pub open spec fn output_message() -> pb::ValueInfoProto {
    proto::value_proto(
        OUTPUT@,
        1,
        seq![proto::open_dimension("N"@), proto::sized_dimension(classify::CLASSES as i64)],
    )
}

/// The model with its weights and metadata.
pub open spec fn model_message(
    weights: Seq<WeightView>,
    metadata: Seq<(Seq<char>, Seq<char>)>,
    version: Seq<char>,
) -> pb::ModelProto {
    proto::model_proto(
        7,
        13,
        "spectrum-monitor train"@,
        version,
        "Modulationsklassifikation für Schmalbandsignale bei 48 kHz"@,
        proto::graph_proto(
            "modulation"@,
            network_nodes().map_values(|n: NodeView| node_message(n)),
            weights.map_values(|w: WeightView| weight_message(w)),
            seq![input_message()],
            seq![output_message()],
        ),
        metadata.map_values(|m: (Seq<char>, Seq<char>)| proto::entry_proto(m.0, m.1)),
    )
}

/// The views of metadata entries.
pub open spec fn metadata_views(m: Seq<(String, String)>) -> Seq<(Seq<char>, Seq<char>)> {
    m.map_values(|e: (String, String)| (e.0@, e.1@))
}

/// Builds the model from the weights of the network and encodes it. `version`
/// is that of the program that writes it.
pub fn export(weights: &[Weight], metadata: &[(String, String)], version: &str) -> (r: Vec<u8>)
    requires
        forall|i: int| 0 <= i < weights@.len() ==> has_sizes(#[trigger] weights@[i]@),
    ensures
        r@ == proto::encoded(
            model_message(weight_views(weights@), metadata_views(metadata@), version@),
        ),
{
    let mut initializer: Vec<pb::TensorProto> = Vec::new();
    let mut i: usize = 0;
    while i < weights.len()
        invariant
            i <= weights@.len(),
            forall|k: int| 0 <= k < weights@.len() ==> has_sizes(#[trigger] weights@[k]@),
            initializer@.len() == i,
            forall|k: int|
                0 <= k < i ==> #[trigger] initializer@[k] == weight_message(weights@[k]@),
        decreases weights@.len() - i,
    {
        initializer.push(weight_of(&weights[i]));
        i += 1;
    }
    assert(initializer@ =~= weight_views(weights@).map_values(|w: WeightView| weight_message(w)));
    let mut props: Vec<pb::StringStringEntryProto> = Vec::new();
    let mut k: usize = 0;
    while k < metadata.len()
        invariant
            k <= metadata@.len(),
            props@.len() == k,
            forall|j: int|
                0 <= j < k ==> #[trigger] props@[j] == proto::entry_proto(
                    metadata@[j].0@,
                    metadata@[j].1@,
                ),
        decreases metadata@.len() - k,
    {
        props.push(proto::entry(text::copied(&metadata[k].0), text::copied(&metadata[k].1)));
        k += 1;
    }
    assert(props@ =~= metadata_views(metadata@).map_values(
        |m: (Seq<char>, Seq<char>)| proto::entry_proto(m.0, m.1),
    ));
    let shape: Vec<pb::tensor_shape_proto::Dimension> = vec![
        proto::open(text::copied("N")),
        proto::sized(classify::CHANNELS as i64),
        proto::sized(classify::WINDOW as i64),
    ];
    assert(shape@ =~= seq![
        proto::open_dimension("N"@),
        proto::sized_dimension(classify::CHANNELS as i64),
        proto::sized_dimension(classify::WINDOW as i64),
    ]);
    let input: Vec<pb::ValueInfoProto> = vec![proto::value(text::copied(INPUT), 1, shape)];
    assert(input@ =~= seq![input_message()]);
    let shape: Vec<pb::tensor_shape_proto::Dimension> = vec![
        proto::open(text::copied("N")),
        proto::sized(classify::CLASSES as i64),
    ];
    assert(shape@ =~= seq![
        proto::open_dimension("N"@),
        proto::sized_dimension(classify::CLASSES as i64),
    ]);
    let output: Vec<pb::ValueInfoProto> = vec![proto::value(text::copied(OUTPUT), 1, shape)];
    assert(output@ =~= seq![output_message()]);
    let graph: pb::GraphProto = proto::graph(
        text::copied("modulation"),
        nodes_of(network()),
        initializer,
        input,
        output,
    );
    let model: pb::ModelProto = proto::model(
        7,
        13,
        text::copied("spectrum-monitor train"),
        text::copied(version),
        text::copied("Modulationsklassifikation für Schmalbandsignale bei 48 kHz"),
        graph,
        props,
    );
    proto::encode(&model)
}

/// The convolutions lead from the feature channels to 64 channels with the
/// kernels 7, 5, 5 and 3; each is padded by half of its kernel on either side.
pub proof fn law_convolutions(i: int)
    requires
        0 <= i < 4,
    ensures
        CONVS == 4,
        conv_shape_of(0) == (3int, 32int, 7int),
        conv_shape_of(1) == (32int, 48int, 5int),
        conv_shape_of(2) == (48int, 64int, 5int),
        conv_shape_of(3) == (64int, 64int, 3int),
        conv_node(i).attributes[0].value == ValueView::Ints(seq![conv_shape_of(i).2 as i64]),
        conv_node(i).attributes[1].value matches ValueView::Ints(pads) && pads.len() == 2 && 2
            * pads[0] + 1 == conv_shape_of(i).2 && pads[1] == pads[0],
{
}

} // verus!
