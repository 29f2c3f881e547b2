//! The downlink telemetry packet and the stream framer.

pub mod packet;
pub mod parser;
