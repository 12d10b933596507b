//! The protobuf messages of an ONNX model, from `tract_onnx::pb`, and their
//! encoding by `prost`.
//!
//! A message stays what the outside crate makes of it. Each is named as a
//! function of the fields that it is made of; all other fields have their
//! default.

use crate::text;
use prost::Message;
use tract_onnx::pb;
use vstd::prelude::*;

verus! {

/// `tract_onnx::pb::AttributeProto`.
#[verifier::external_type_specification]
#[verifier::external_body]
pub struct ExAttributeProto(tract_onnx::pb::AttributeProto);

/// `tract_onnx::pb::NodeProto`.
#[verifier::external_type_specification]
#[verifier::external_body]
pub struct ExNodeProto(tract_onnx::pb::NodeProto);

/// `tract_onnx::pb::TensorProto`.
#[verifier::external_type_specification]
#[verifier::external_body]
pub struct ExTensorProto(tract_onnx::pb::TensorProto);

/// `tract_onnx::pb::tensor_shape_proto::Dimension`.
#[verifier::external_type_specification]
#[verifier::external_body]
pub struct ExDimension(tract_onnx::pb::tensor_shape_proto::Dimension);

/// `tract_onnx::pb::ValueInfoProto`.
#[verifier::external_type_specification]
#[verifier::external_body]
pub struct ExValueInfoProto(tract_onnx::pb::ValueInfoProto);

/// `tract_onnx::pb::GraphProto`.
#[verifier::external_type_specification]
#[verifier::external_body]
pub struct ExGraphProto(tract_onnx::pb::GraphProto);

/// `tract_onnx::pb::StringStringEntryProto`.
#[verifier::external_type_specification]
#[verifier::external_body]
pub struct ExStringStringEntryProto(tract_onnx::pb::StringStringEntryProto);

/// `tract_onnx::pb::ModelProto`.
#[verifier::external_type_specification]
#[verifier::external_body]
pub struct ExModelProto(tract_onnx::pb::ModelProto);

/// The attribute message with this name and integer.
pub uninterp spec fn int_attribute(name: Seq<char>, v: i64) -> pb::AttributeProto;

/// Makes a `tract_onnx::pb::AttributeProto` of type `Int` of its name and
/// integer; the message depends on nothing else.
#[verifier::external_body]
pub(crate) fn int_message(name: String, v: i64) -> (r: pb::AttributeProto)
    ensures
        r == int_attribute(name@, v),
{
    let mut r = pb::AttributeProto { name, i: v, ..Default::default() };
    r.set_type(pb::attribute_proto::AttributeType::Int);
    r
}

/// The attribute message with this name and list of integers.
pub uninterp spec fn ints_attribute(name: Seq<char>, v: Seq<i64>) -> pb::AttributeProto;

/// Makes a `tract_onnx::pb::AttributeProto` of type `Ints` of its name and list
/// of integers; the message depends on nothing else.
#[verifier::external_body]
pub(crate) fn ints_message(name: String, v: Vec<i64>) -> (r: pb::AttributeProto)
    ensures
        r == ints_attribute(name@, v@),
{
    let mut r = pb::AttributeProto { name, ints: v, ..Default::default() };
    r.set_type(pb::attribute_proto::AttributeType::Ints);
    r
}

/// The node message with this operator, name, inputs, outputs and attributes.
pub uninterp spec fn node_proto(op_type: Seq<char>, name: Seq<char>, input: Seq<Seq<char>>, output: Seq<Seq<char>>, attribute: Seq<pb::AttributeProto>) -> pb::NodeProto;

/// Makes a `tract_onnx::pb::NodeProto` of its operator, name, inputs, outputs
/// and attributes; the message depends on nothing else.
#[verifier::external_body]
pub(crate) fn node(
    op_type: String,
    name: String,
    input: Vec<String>,
    output: Vec<String>,
    attribute: Vec<pb::AttributeProto>,
) -> (r: pb::NodeProto)
    ensures
        r == node_proto(
            op_type@,
            name@,
            text::views(input@),
            text::views(output@),
            attribute@,
        ),
{
    pb::NodeProto { op_type, name, input, output, attribute, ..Default::default() }
}

/// The tensor message with this name, shape, type and raw data.
pub uninterp spec fn tensor_proto(name: Seq<char>, dims: Seq<i64>, data_type: i32, raw: Seq<u8>) -> pb::TensorProto;

/// Makes a `tract_onnx::pb::TensorProto` of its name, shape, type and raw data;
/// the message depends on nothing else.
#[verifier::external_body]
pub(crate) fn tensor(name: String, dims: Vec<i64>, data_type: i32, raw: Vec<u8>) -> (r: pb::TensorProto)
    ensures
        r == tensor_proto(name@, dims@, data_type, raw@),
{
    pb::TensorProto { name, dims, data_type, raw_data: raw, ..Default::default() }
}

/// The dimension of a known size.
pub uninterp spec fn sized_dimension(n: i64) -> pb::tensor_shape_proto::Dimension;

/// Makes a `tract_onnx::pb::tensor_shape_proto::Dimension` of a known size; the
/// message depends on nothing else.
#[verifier::external_body]
pub(crate) fn sized(n: i64) -> (r: pb::tensor_shape_proto::Dimension)
    ensures
        r == sized_dimension(n),
{
    pb::tensor_shape_proto::Dimension {
        value: Some(pb::tensor_shape_proto::dimension::Value::DimValue(n)),
        ..Default::default()
    }
}

/// The dimension of an open size with a name.
pub uninterp spec fn open_dimension(name: Seq<char>) -> pb::tensor_shape_proto::Dimension;

/// Makes a `tract_onnx::pb::tensor_shape_proto::Dimension` of an open size with
/// a name; the message depends on nothing else.
#[verifier::external_body]
pub(crate) fn open(name: String) -> (r: pb::tensor_shape_proto::Dimension)
    ensures
        r == open_dimension(name@),
{
    pb::tensor_shape_proto::Dimension {
        value: Some(pb::tensor_shape_proto::dimension::Value::DimParam(name)),
        ..Default::default()
    }
}

/// The description of a tensor value with this name, element type and shape.
pub uninterp spec fn value_proto(name: Seq<char>, elem_type: i32, dim: Seq<pb::tensor_shape_proto::Dimension>) -> pb::ValueInfoProto;

/// Makes a `tract_onnx::pb::ValueInfoProto` for a tensor of its name, element
/// type and shape; the message depends on nothing else. The type goes in as its
/// second protobuf field, by `prost::Message::merge`.
#[verifier::external_body]
pub(crate) fn value(
    name: String,
    elem_type: i32,
    dim: Vec<pb::tensor_shape_proto::Dimension>,
) -> (r: pb::ValueInfoProto)
    ensures
        r == value_proto(name@, elem_type, dim@),
{
    let shape = Some(pb::TensorShapeProto { dim });
    let tensor = pb::type_proto::Value::TensorType(pb::type_proto::Tensor { elem_type, shape });
    let kind = pb::TypeProto { value: Some(tensor), ..Default::default() };
    let mut field = Vec::new();
    prost::encoding::message::encode(2, &kind, &mut field);
    let mut r = pb::ValueInfoProto { name, ..Default::default() };
    r.merge(field.as_slice()).expect("a message that was just encoded");
    r
}

/// The graph message with this name, nodes, initialisers, inputs and outputs.
pub uninterp spec fn graph_proto(name: Seq<char>, node: Seq<pb::NodeProto>, initializer: Seq<pb::TensorProto>, input: Seq<pb::ValueInfoProto>, output: Seq<pb::ValueInfoProto>) -> pb::GraphProto;

/// Makes a `tract_onnx::pb::GraphProto` of its name, nodes, initialisers, inputs
/// and outputs; the message depends on nothing else.
#[verifier::external_body]
pub(crate) fn graph(
    name: String,
    node: Vec<pb::NodeProto>,
    initializer: Vec<pb::TensorProto>,
    input: Vec<pb::ValueInfoProto>,
    output: Vec<pb::ValueInfoProto>,
) -> (r: pb::GraphProto)
    ensures
        r == graph_proto(name@, node@, initializer@, input@, output@),
{
    pb::GraphProto { name, node, initializer, input, output, ..Default::default() }
}

/// The metadata entry with this key and value.
pub uninterp spec fn entry_proto(key: Seq<char>, value: Seq<char>) -> pb::StringStringEntryProto;

/// Makes a `tract_onnx::pb::StringStringEntryProto` of its key and value; the
/// message depends on nothing else.
#[verifier::external_body]
pub(crate) fn entry(key: String, value: String) -> (r: pb::StringStringEntryProto)
    ensures
        r == entry_proto(key@, value@),
{
    pb::StringStringEntryProto { key, value }
}

/// The model message of this format version, standard operator set, producer,
/// documentation, graph and metadata.
pub uninterp spec fn model_proto(ir_version: i64, opset: i64, producer: Seq<char>, version: Seq<char>, doc: Seq<char>, graph: pb::GraphProto, metadata: Seq<pb::StringStringEntryProto>) -> pb::ModelProto;

/// Makes a `tract_onnx::pb::ModelProto` of its format version, the version of
/// the standard operator set, producer, documentation, graph and metadata; the
/// message depends on nothing else.
#[verifier::external_body]
pub(crate) fn model(
    ir_version: i64,
    opset: i64,
    producer_name: String,
    producer_version: String,
    doc_string: String,
    graph: pb::GraphProto,
    metadata_props: Vec<pb::StringStringEntryProto>,
) -> (r: pb::ModelProto)
    ensures
        r == model_proto(
            ir_version,
            opset,
            producer_name@,
            producer_version@,
            doc_string@,
            graph,
            metadata_props@,
        ),
{
    let set = pb::OperatorSetIdProto { domain: String::new(), version: opset };
    let (opset_import, graph) = (vec![set], Some(graph));
    pb::ModelProto {
        ir_version, opset_import, producer_name, producer_version, doc_string, graph,
        metadata_props, ..Default::default()
    }
}

/// The bytes of a model message.
pub uninterp spec fn encoded(model: pb::ModelProto) -> Seq<u8>;

/// Encodes a model by `prost::Message::encode_to_vec`; the bytes depend on the
/// message alone.
#[verifier::external_body]
pub(crate) fn encode(model: &pb::ModelProto) -> (r: Vec<u8>)
    ensures
        r@ == encoded(*model),
{
    model.encode_to_vec()
}

} // verus!
