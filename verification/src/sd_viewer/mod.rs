//! The SD log viewer: chart data reduction and flight-log analysis.

pub mod charts;
pub mod state;
