//! The downlink telemetry packet: its constants, the enumerations carried in
//! it, the fault-flag table, and the uplink command frame.

use vstd::prelude::*;

use crate::bytes::{le_i16, le_i32, le_u16, le_u32, signed8, sync_at};

verus! {

/// Length in bytes of one downlink telemetry packet.
pub const PACKET_SIZE: usize = 95;

/// Frame start marker, stored little-endian (0xFE then 0xCA).
pub const SYNC_WORD: u16 = 0xCAFE;

/// Frame end marker, the last byte of every frame.
pub const SYNC_END: u8 = 0xBE;

/// Number of entries in the fault-flag table.
pub const FAULT_COUNT: usize = 10;

/// The flight computer's state machine.
#[derive(Debug, Clone, Copy, PartialEq, Eq, Structural)]
pub enum FlightState {
    Idle,
    Calibration,
    Prelaunch,
    Burn,
    PassiveBurnout,
    ActiveBurnout,
    Apogee,
    Parachute,
    Landed,
    GroundAbort,
    DescentAbort,
}

/// The state whose wire code is `v`, if any.
pub open spec fn flight_state_of(v: u8) -> Option<FlightState> {
    if v == 0 {
        Some(FlightState::Idle)
    } else if v == 1 {
        Some(FlightState::Calibration)
    } else if v == 2 {
        Some(FlightState::Prelaunch)
    } else if v == 3 {
        Some(FlightState::Burn)
    } else if v == 4 {
        Some(FlightState::PassiveBurnout)
    } else if v == 5 {
        Some(FlightState::ActiveBurnout)
    } else if v == 6 {
        Some(FlightState::Apogee)
    } else if v == 7 {
        Some(FlightState::Parachute)
    } else if v == 8 {
        Some(FlightState::Landed)
    } else if v == 9 {
        Some(FlightState::GroundAbort)
    } else if v == 10 {
        Some(FlightState::DescentAbort)
    } else {
        None
    }
}

impl FlightState {
    /// The state's wire code.
    pub open spec fn code(self) -> u8 {
        match self {
            FlightState::Idle => 0,
            FlightState::Calibration => 1,
            FlightState::Prelaunch => 2,
            FlightState::Burn => 3,
            FlightState::PassiveBurnout => 4,
            FlightState::ActiveBurnout => 5,
            FlightState::Apogee => 6,
            FlightState::Parachute => 7,
            FlightState::Landed => 8,
            FlightState::GroundAbort => 9,
            FlightState::DescentAbort => 10,
        }
    }

    /// The state's display name.
    pub open spec fn name_view(self) -> Seq<char> {
        match self {
            FlightState::Idle => "IDLE"@,
            FlightState::Calibration => "CALIBRATION"@,
            FlightState::Prelaunch => "PRELAUNCH"@,
            FlightState::Burn => "BURN"@,
            FlightState::PassiveBurnout => "PASSIVE BURNOUT"@,
            FlightState::ActiveBurnout => "ACTIVE BURNOUT"@,
            FlightState::Apogee => "APOGEE"@,
            FlightState::Parachute => "PARACHUTE"@,
            FlightState::Landed => "LANDED"@,
            FlightState::GroundAbort => "GROUND ABORT"@,
            FlightState::DescentAbort => "DESCENT ABORT"@,
        }
    }

    /// Decodes a wire code; codes above 10 name no state.
    pub fn from_u8(v: u8) -> (r: Option<Self>)
        ensures
            r == flight_state_of(v),
    {
        match v {
            0 => Some(FlightState::Idle),
            1 => Some(FlightState::Calibration),
            2 => Some(FlightState::Prelaunch),
            3 => Some(FlightState::Burn),
            4 => Some(FlightState::PassiveBurnout),
            5 => Some(FlightState::ActiveBurnout),
            6 => Some(FlightState::Apogee),
            7 => Some(FlightState::Parachute),
            8 => Some(FlightState::Landed),
            9 => Some(FlightState::GroundAbort),
            10 => Some(FlightState::DescentAbort),
            _ => None,
        }
    }

    /// The state's wire code, as written to CSV exports.
    pub fn as_u8(self) -> (r: u8)
        ensures
            r == self.code(),
    {
        match self {
            FlightState::Idle => 0,
            FlightState::Calibration => 1,
            FlightState::Prelaunch => 2,
            FlightState::Burn => 3,
            FlightState::PassiveBurnout => 4,
            FlightState::ActiveBurnout => 5,
            FlightState::Apogee => 6,
            FlightState::Parachute => 7,
            FlightState::Landed => 8,
            FlightState::GroundAbort => 9,
            FlightState::DescentAbort => 10,
        }
    }

    /// The state's display name (upper case, words separated by a space).
    pub fn name(&self) -> (r: &'static str)
        ensures
            r@ == self.name_view(),
    {
        match self {
            FlightState::Idle => "IDLE",
            FlightState::Calibration => "CALIBRATION",
            FlightState::Prelaunch => "PRELAUNCH",
            FlightState::Burn => "BURN",
            FlightState::PassiveBurnout => "PASSIVE BURNOUT",
            FlightState::ActiveBurnout => "ACTIVE BURNOUT",
            FlightState::Apogee => "APOGEE",
            FlightState::Parachute => "PARACHUTE",
            FlightState::Landed => "LANDED",
            FlightState::GroundAbort => "GROUND ABORT",
            FlightState::DescentAbort => "DESCENT ABORT",
        }
    }
}

/// Decoding a state's wire code gives the state back, and a code that decodes
/// to a state is that state's code: the codes 0 to 10 and the states are in
/// one-to-one correspondence.
pub proof fn lemma_flight_state_code_roundtrip(s: FlightState, v: u8)
    ensures
        flight_state_of(s.code()) == Some(s),
        flight_state_of(v) == Some(s) ==> s.code() == v,
        flight_state_of(v) is Some <==> v <= 10,
{
}

/// The pyro relay outputs reported by the flight computer.
#[derive(Debug, Clone, Copy, PartialEq, Eq, Structural)]
pub struct RelayState {
    pub drogue_fired: bool,
    pub parachute_fired: bool,
}

/// The relay state carried in the byte `v`: bit 0 is the drogue, bit 1 the
/// main parachute; the other bits are ignored.
pub open spec fn relay_state_of(v: u8) -> RelayState {
    RelayState { drogue_fired: v & 0x01 != 0, parachute_fired: v & 0x02 != 0 }
}

impl RelayState {
    /// The byte encoding of the relay state (bit 0 drogue, bit 1 parachute).
    pub open spec fn code(self) -> u8 {
        ((if self.drogue_fired {
            1u8
        } else {
            0u8
        }) + (if self.parachute_fired {
            2u8
        } else {
            0u8
        })) as u8
    }

    /// Decodes the relay byte.
    pub fn from_u8(v: u8) -> (r: Self)
        ensures
            r == relay_state_of(v),
    {
        RelayState { drogue_fired: v & 0x01 != 0, parachute_fired: v & 0x02 != 0 }
    }

    /// Encodes the relay state as the byte written to CSV exports.
    pub fn to_u8(self) -> (r: u8)
        ensures
            r == self.code(),
            r < 4,
    {
        let d: u8 = if self.drogue_fired {
            1
        } else {
            0
        };
        let p: u8 = if self.parachute_fired {
            2
        } else {
            0
        };
        d + p
    }
}

/// Encoding a relay state and decoding the byte gives the same state back;
/// decoding a byte and encoding the result keeps exactly its two low bits.
pub proof fn lemma_relay_roundtrip(r: RelayState, v: u8)
    ensures
        relay_state_of(r.code()) == r,
        relay_state_of(v).code() == v & 3u8,
{
    assert(forall|x: u8|
        x < 4 ==> (((x & 1u8) != 0u8) == (x == 1u8 || x == 3u8)) && (((x & 2u8) != 0u8) == (x
            == 2u8 || x == 3u8))) by (bit_vector);
    assert(((v & 1u8) != 0u8 ==> (v & 1u8) == 1u8) && ((v & 2u8) != 0u8 ==> (v & 2u8) == 2u8)
        && (v & 3u8) == (v & 1u8) + (v & 2u8)) by (bit_vector);
}

/// Commands the ground station can uplink.
#[derive(Debug, Clone, Copy, PartialEq, Eq, Structural)]
pub enum Command {
    NoCommand,
    Reset,
    GroundAbort,
    Calibration,
    Drogue,
    Landed,
}

/// The command whose wire code is `v`, if any.
pub open spec fn command_of(v: u8) -> Option<Command> {
    if v == 0 {
        Some(Command::NoCommand)
    } else if v == 1 {
        Some(Command::Reset)
    } else if v == 2 {
        Some(Command::GroundAbort)
    } else if v == 3 {
        Some(Command::Calibration)
    } else if v == 4 {
        Some(Command::Drogue)
    } else if v == 5 {
        Some(Command::Landed)
    } else {
        None
    }
}

impl Command {
    /// The command's wire code.
    pub open spec fn code(self) -> u8 {
        match self {
            Command::NoCommand => 0,
            Command::Reset => 1,
            Command::GroundAbort => 2,
            Command::Calibration => 3,
            Command::Drogue => 4,
            Command::Landed => 5,
        }
    }

    /// The command's display name.
    pub open spec fn name_view(self) -> Seq<char> {
        match self {
            Command::NoCommand => "NONE"@,
            Command::Reset => "RESET"@,
            Command::GroundAbort => "GROUND ABORT"@,
            Command::Calibration => "CALIBRATION"@,
            Command::Drogue => "DROGUE"@,
            Command::Landed => "LANDED"@,
        }
    }

    /// Decodes a wire code; codes above 5 name no command.
    pub fn from_u8(v: u8) -> (r: Option<Self>)
        ensures
            r == command_of(v),
    {
        match v {
            0x00 => Some(Command::NoCommand),
            0x01 => Some(Command::Reset),
            0x02 => Some(Command::GroundAbort),
            0x03 => Some(Command::Calibration),
            0x04 => Some(Command::Drogue),
            0x05 => Some(Command::Landed),
            _ => None,
        }
    }

    /// The command's wire code.
    pub fn command_byte(self) -> (r: u8)
        ensures
            r == self.code(),
    {
        match self {
            Command::NoCommand => 0x00,
            Command::Reset => 0x01,
            Command::GroundAbort => 0x02,
            Command::Calibration => 0x03,
            Command::Drogue => 0x04,
            Command::Landed => 0x05,
        }
    }

    /// The command's display name.
    pub fn name(&self) -> (r: &'static str)
        ensures
            r@ == self.name_view(),
    {
        match self {
            Command::NoCommand => "NONE",
            Command::Reset => "RESET",
            Command::GroundAbort => "GROUND ABORT",
            Command::Calibration => "CALIBRATION",
            Command::Drogue => "DROGUE",
            Command::Landed => "LANDED",
        }
    }
}

/// Decoding a command's wire code gives the command back, and the codes 0 to 5
/// are exactly the ones that name a command.
pub proof fn lemma_command_code_roundtrip(c: Command, v: u8)
    ensures
        command_of(c.code()) == Some(c),
        command_of(v) == Some(c) ==> c.code() == v,
        command_of(v) is Some <==> v <= 5,
{
}

/// The fault bit of entry `i` of the fault table.
pub open spec fn fault_bit(i: int) -> u32 {
    1u32 << (i as u32)
}

/// The sensor or subsystem named by entry `i` of the fault table.
pub open spec fn fault_name_view(i: int) -> Seq<char> {
    if i == 0 {
        "BMP280 Idle Failed"@
    } else if i == 1 {
        "BMP280 Perf Failed"@
    } else if i == 2 {
        "BMP581 Idle Failed"@
    } else if i == 3 {
        "BMP581 Perf Failed"@
    } else if i == 4 {
        "IIM42653 Idle Failed"@
    } else if i == 5 {
        "IIM42653 Perf Failed"@
    } else if i == 6 {
        "IIS2MDCTR Idle Failed"@
    } else if i == 7 {
        "IIS2MDCTR Perf Failed"@
    } else if i == 8 {
        "SD Mount Failed"@
    } else {
        "SD Open Failed"@
    }
}

/// The names of the faults among the first `n` table entries whose bit is
/// set in `flags`, in table order.
pub open spec fn active_fault_names(flags: u32, n: nat) -> Seq<Seq<char>>
    decreases n,
{
    if n == 0 {
        Seq::empty()
    } else {
        let rest = active_fault_names(flags, (n - 1) as nat);
        if flags & fault_bit(n - 1) != 0 {
            rest.push(fault_name_view(n - 1))
        } else {
            rest
        }
    }
}

/// The name of fault-table entry `i`.
pub fn fault_name(i: usize) -> (r: &'static str)
    requires
        i < FAULT_COUNT,
    ensures
        r@ == fault_name_view(i as int),
{
    match i {
        0 => "BMP280 Idle Failed",
        1 => "BMP280 Perf Failed",
        2 => "BMP581 Idle Failed",
        3 => "BMP581 Perf Failed",
        4 => "IIM42653 Idle Failed",
        5 => "IIM42653 Perf Failed",
        6 => "IIS2MDCTR Idle Failed",
        7 => "IIS2MDCTR Perf Failed",
        8 => "SD Mount Failed",
        _ => "SD Open Failed",
    }
}

/// The names of the faults flagged in `flags`, in table order (bit 0 first).
pub fn active_faults(flags: u32) -> (r: Vec<&'static str>)
    ensures
        r@.map_values(|s: &'static str| s@) == active_fault_names(flags, FAULT_COUNT as nat),
{
    let mut r: Vec<&'static str> = Vec::new();
    let mut i: usize = 0;
    while i < FAULT_COUNT
        invariant
            i <= FAULT_COUNT,
            r@.map_values(|s: &'static str| s@) == active_fault_names(flags, i as nat),
        decreases FAULT_COUNT - i,
    {
        let bit: u32 = 1u32 << (i as u32);
        if flags & bit != 0 {
            r.push(fault_name(i));
        }
        proof {
            let ghost prev = active_fault_names(flags, i as nat);
            assert(active_fault_names(flags, (i + 1) as nat) == if flags & fault_bit(i as int)
                != 0 {
                prev.push(fault_name_view(i as int))
            } else {
                prev
            });
        }
        i = i + 1;
    }
    r
}

/// Number of sensors and subsystems in the fault table. Sensor `i` owns the
/// two consecutive fault entries `2 * i` and `2 * i + 1`.
pub const SENSOR_COUNT: usize = 5;

/// The name of sensor `i` of the fault table.
pub open spec fn sensor_name_view(i: int) -> Seq<char> {
    if i == 0 {
        "BMP280"@
    } else if i == 1 {
        "BMP581"@
    } else if i == 2 {
        "IIM42653"@
    } else if i == 3 {
        "IIS2MDCTR"@
    } else {
        "SD"@
    }
}

/// The name of sensor `i` of the fault table.
pub fn sensor_name(i: usize) -> (r: &'static str)
    requires
        i < SENSOR_COUNT,
    ensures
        r@ == sensor_name_view(i as int),
{
    match i {
        0 => "BMP280",
        1 => "BMP581",
        2 => "IIM42653",
        3 => "IIS2MDCTR",
        _ => "SD",
    }
}

/// Whether sensor `i` is failed in `flags`: either of its two fault bits is set.
pub fn sensor_failed(flags: u32, i: usize) -> (r: bool)
    requires
        i < SENSOR_COUNT,
    ensures
        r == (flags & fault_bit(2 * i) != 0 || flags & fault_bit(2 * i + 1) != 0),
{
    let k: u32 = 2 * (i as u32);
    let k1: u32 = k + 1;
    let mask: u32 = 3u32 << k;
    let r = flags & mask != 0;
    assert(r == (flags & (1u32 << k) != 0 || flags & (1u32 << k1) != 0)) by (bit_vector)
        requires
            k < 10,
            k1 == k + 1,
            mask == 3u32 << k,
            r == (flags & mask != 0),
    ;
    r
}

/// One decoded downlink packet. Every field holds the integer that the
/// flight computer sent; the physical units follow from the field names:
/// `accel` and `gyro` are sensor counts, `latitude_e7` and `longitude_e7` are
/// degrees times 10^7, the `_cm` and `_cms` fields are centimetres and
/// centimetres per second, and `pressure_raw` and `battery_raw` are the
/// scaled pressure and battery readings.
#[derive(Debug, Clone, Copy)]
pub struct Telemetry {
    pub raw: [u8; PACKET_SIZE],
    pub tick: u32,
    pub accel: [i16; 3],
    pub gyro: [i16; 3],
    pub pressure_raw: i16,
    pub temperature_c: i8,
    pub latitude_e7: i32,
    pub longitude_e7: i32,
    pub gps_altitude_cm: i32,
    pub satellites: u8,
    pub baro_altitude_cm: i32,
    pub baro_velocity_cms: i32,
    pub flags: u32,
    pub battery_raw: i16,
    pub state: FlightState,
    pub relay: RelayState,
    pub last_command: Command,
}

/// Whether the 95 bytes `s` form a packet that decodes: the sync word at the
/// start, the end marker last, and a known flight-state code at offset 48.
pub open spec fn packet_valid(s: Seq<u8>) -> bool {
    &&& s.len() == PACKET_SIZE
    &&& le_u16(s, 0) == SYNC_WORD
    &&& s[PACKET_SIZE - 1] == SYNC_END
    &&& flight_state_of(s[48]) is Some
}

impl Telemetry {
    /// Whether this packet is the decoding of the bytes `s`. The layout is:
    /// sync word (0), tick (2, u32), accel x/y/z (6, 8, 10, i16), gyro x/y/z
    /// (12, 14, 16, i16), pressure (18, i16), temperature (20, i8), latitude
    /// (21, i32), longitude (25, i32), GPS altitude (29, i32), satellites
    /// (33, u8), barometric altitude (34, i32), barometric velocity (38, i32),
    /// fault flags (42, u32), battery (46, i16), state (48), relays (49),
    /// last command (50), end marker (94); all little-endian. An unknown
    /// command code decodes as no command.
    pub open spec fn decodes(self, s: Seq<u8>) -> bool {
        &&& self.raw@ == s
        &&& self.tick == le_u32(s, 2)
        &&& self.accel@[0] == le_i16(s, 6)
        &&& self.accel@[1] == le_i16(s, 8)
        &&& self.accel@[2] == le_i16(s, 10)
        &&& self.gyro@[0] == le_i16(s, 12)
        &&& self.gyro@[1] == le_i16(s, 14)
        &&& self.gyro@[2] == le_i16(s, 16)
        &&& self.pressure_raw == le_i16(s, 18)
        &&& self.temperature_c == signed8(s[20] as int)
        &&& self.latitude_e7 == le_i32(s, 21)
        &&& self.longitude_e7 == le_i32(s, 25)
        &&& self.gps_altitude_cm == le_i32(s, 29)
        &&& self.satellites == s[33]
        &&& self.baro_altitude_cm == le_i32(s, 34)
        &&& self.baro_velocity_cms == le_i32(s, 38)
        &&& self.flags == le_u32(s, 42)
        &&& self.battery_raw == le_i16(s, 46)
        &&& Some(self.state) == flight_state_of(s[48])
        &&& self.relay == relay_state_of(s[49])
        &&& self.last_command == command_of(s[50]).unwrap_or(Command::NoCommand)
    }

    /// Whether the packet carries a GPS position: a zero latitude and
    /// longitude mean no fix.
    pub fn has_position(&self) -> (r: bool)
        ensures
            r == (self.latitude_e7 != 0 || self.longitude_e7 != 0),
    {
        self.latitude_e7 != 0 || self.longitude_e7 != 0
    }
}

/// The three axes of each motion sensor travel in wire order x, y, z, each a
/// signed little-endian 16-bit value two bytes after the previous one: axis
/// `k` of the accelerometer at offset 6 + 2k, axis `k` of the gyroscope at
/// offset 12 + 2k.
pub proof fn lemma_packet_axes_in_wire_order(t: Telemetry, s: Seq<u8>)
    requires
        t.decodes(s),
    ensures
        forall|k: int|
            0 <= k < 3 ==> #[trigger] t.accel@[k] == le_i16(s, 6 + 2 * k) && t.gyro@[k] == le_i16(
                s,
                12 + 2 * k,
            ),
{
    assert forall|k: int| 0 <= k < 3 implies #[trigger] t.accel@[k] == le_i16(s, 6 + 2 * k)
        && t.gyro@[k] == le_i16(s, 12 + 2 * k) by {
        if k == 0 {
        } else if k == 1 {
        } else {
        }
    }
}

/// The five-byte uplink frame for `cmd`: the sync word (little-endian), the
/// command code, a reserved zero byte, and the end marker.
pub fn build_command_frame(cmd: Command) -> (frame: [u8; 5])
    ensures
        frame@ == seq![0xFEu8, 0xCAu8, cmd.code(), 0x00u8, SYNC_END],
        le_u16(frame@, 0) == SYNC_WORD,
{
    let frame: [u8; 5] = [0xFE, 0xCA, cmd.command_byte(), 0x00, SYNC_END];
    frame
}

/// The command byte of a frame built for `cmd` decodes back to `cmd`.
pub proof fn lemma_command_frame_decodes(cmd: Command, frame: Seq<u8>)
    requires
        frame == seq![0xFEu8, 0xCAu8, cmd.code(), 0x00u8, SYNC_END],
    ensures
        command_of(frame[2]) == Some(cmd),
        sync_at(frame, 0),
        frame[4] == SYNC_END,
{
}

} // verus!
