//! Training data of the classifier, its evaluation, and the export of the
//! trained network.

pub mod data;
pub mod onnx;
pub mod proto;
