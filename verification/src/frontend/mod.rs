//! What the web interface decides: tiles of the chart, texts, lists, and what
//! keys, pointer and connections do.

pub mod app;
pub mod format;
pub mod geo;
pub mod live;
pub mod map;
pub mod spectrum;
