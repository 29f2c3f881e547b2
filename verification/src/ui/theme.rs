//! Colours as plain values.

use vstd::prelude::*;

use crate::telemetry::packet::FlightState;

verus! {

/// An opaque 8-bit-per-channel colour.
#[derive(Debug, Clone, Copy, PartialEq, Eq, Structural)]
pub struct Rgb {
    pub r: u8,
    pub g: u8,
    pub b: u8,
}

/// The colour with the given channels.
pub open spec fn rgb(r: u8, g: u8, b: u8) -> Rgb {
    Rgb { r, g, b }
}

/// The role a status colour plays; the window's theme picks the colour.
#[derive(Debug, Clone, Copy, PartialEq, Eq, Structural)]
pub enum Tone {
    Neutral,
    Boost,
    Good,
    Bad,
    Caution,
}

/// The tone of the flight-state badge: grey on the pad, orange under
/// thrust, green at apogee and under the main parachute, red on an abort,
/// yellow otherwise.
pub open spec fn flight_state_tone_spec(s: FlightState) -> Tone {
    match s {
        FlightState::Idle => Tone::Neutral,
        FlightState::Burn => Tone::Boost,
        FlightState::Apogee | FlightState::Parachute => Tone::Good,
        FlightState::GroundAbort | FlightState::DescentAbort => Tone::Bad,
        _ => Tone::Caution,
    }
}

/// The tone of the flight-state badge for `s`.
pub fn flight_state_tone(s: FlightState) -> (t: Tone)
    ensures
        t == flight_state_tone_spec(s),
{
    match s {
        FlightState::Idle => Tone::Neutral,
        FlightState::Burn => Tone::Boost,
        FlightState::Apogee | FlightState::Parachute => Tone::Good,
        FlightState::GroundAbort | FlightState::DescentAbort => Tone::Bad,
        _ => Tone::Caution,
    }
}

/// Fewer satellites than this give no usable position fix.
pub const MIN_FIX_SATELLITES: u8 = 4;

/// The tone of a satellite count: good from `MIN_FIX_SATELLITES` up, bad below.
pub fn satellite_tone(satellites: u8) -> (t: Tone)
    ensures
        t == (if satellites >= MIN_FIX_SATELLITES { Tone::Good } else { Tone::Bad }),
{
    if satellites >= MIN_FIX_SATELLITES {
        Tone::Good
    } else {
        Tone::Bad
    }
}

} // verus!
