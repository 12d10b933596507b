//! Decisions and codecs of a radio spectrum monitor: AIS framing, messages and
//! NMEA output, signal tracking, event reporting and the display state.

pub mod ais;
pub mod burst;
pub mod classify;
pub mod detect;
pub mod dsp;
pub mod frontend;
pub mod match_laws;
pub mod order;
pub mod pipeline;
pub mod random;
pub mod report_laws;
pub mod scanner;
pub mod scanner_laws;
pub mod scanner_runs;
pub mod server;
pub mod store;
pub mod text;
pub mod text_laws;
pub mod track;
pub mod track_laws;
pub mod track_runs;
pub mod train;
pub mod wire;
