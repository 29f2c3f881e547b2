//! Ground-station core for a sounding rocket: the binary downlink packet and
//! SD-card record formats, the byte-stream framer that recovers packets from
//! a serial link, the flight-log analysis behind the log viewer (flight-state
//! segments, relay and command events, telemetry gaps), the serial session's
//! decision logic, and a few presentation helpers that compute on plain values.

pub mod bytes;
pub mod sd_log;
pub mod sd_viewer;
pub mod serial;
pub mod state;
pub mod telemetry;
pub mod time;
pub mod ui;
