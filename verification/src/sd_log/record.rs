//! The SD-card log record: its constants, its decoded form, and the byte
//! layout table used by the raw-record viewer.

use vstd::prelude::*;

use crate::bytes::{le_i32, le_u16, le_u32};
use crate::telemetry::packet::{
    command_of, flight_state_of, relay_state_of, Command, FlightState, RelayState,
};
use crate::ui::theme::{rgb, Rgb};

verus! {

/// Length in bytes of one SD log record.
pub const SD_RECORD_SIZE: usize = 81;

/// Record start marker, stored little-endian (0xFE then 0xCA).
pub const SD_SYNC_WORD: u16 = 0xCAFE;

/// Record end marker, the last byte of every record.
pub const SD_SYNC_END: u8 = 0xBE;

/// Number of entries in the record layout table.
pub const SD_RECORD_FIELD_COUNT: usize = 25;

/// One decoded SD log record. The sensor readings that the flight computer
/// logs as IEEE-754 single-precision numbers are kept as their 32-bit
/// patterns (the `_bits` fields); latitude and longitude are degrees times
/// 10^7.
#[derive(Debug, Clone, Copy)]
pub struct SdRecord {
    pub raw: [u8; SD_RECORD_SIZE],
    pub tick: u32,
    pub accel_bits: [u32; 3],
    pub gyro_bits: [u32; 3],
    pub mag_bits: [u32; 3],
    pub pressure_bits: u32,
    pub temperature_bits: u32,
    pub latitude_e7: i32,
    pub longitude_e7: i32,
    pub gps_altitude_bits: u32,
    pub unix_time: u32,
    pub milliseconds: u16,
    pub satellites: u8,
    pub flags: u32,
    pub battery_bits: u32,
    pub state: FlightState,
    pub relay: RelayState,
    pub last_command: Command,
}

/// Whether the 81 bytes `s` form a record that decodes: the sync word at the
/// start, the end marker last, and a known flight-state code at offset 77.
pub open spec fn sd_record_valid(s: Seq<u8>) -> bool {
    &&& s.len() == SD_RECORD_SIZE
    &&& le_u16(s, 0) == SD_SYNC_WORD
    &&& s[SD_RECORD_SIZE - 1] == SD_SYNC_END
    &&& flight_state_of(s[77]) is Some
}

impl SdRecord {
    /// Whether this record is the decoding of the bytes `s`, laid out as the
    /// table `sd_record_field_spec` describes; all fields little-endian. An
    /// unknown command code decodes as no command.
    pub open spec fn decodes(self, s: Seq<u8>) -> bool {
        &&& self.raw@ == s
        &&& self.tick == le_u32(s, 2)
        &&& self.accel_bits@[0] == le_u32(s, 6)
        &&& self.accel_bits@[1] == le_u32(s, 10)
        &&& self.accel_bits@[2] == le_u32(s, 14)
        &&& self.gyro_bits@[0] == le_u32(s, 18)
        &&& self.gyro_bits@[1] == le_u32(s, 22)
        &&& self.gyro_bits@[2] == le_u32(s, 26)
        &&& self.mag_bits@[0] == le_u32(s, 30)
        &&& self.mag_bits@[1] == le_u32(s, 34)
        &&& self.mag_bits@[2] == le_u32(s, 38)
        &&& self.pressure_bits == le_u32(s, 42)
        &&& self.temperature_bits == le_u32(s, 46)
        &&& self.latitude_e7 == le_i32(s, 50)
        &&& self.longitude_e7 == le_i32(s, 54)
        &&& self.gps_altitude_bits == le_u32(s, 58)
        &&& self.unix_time == le_u32(s, 62)
        &&& self.milliseconds == le_u16(s, 66)
        &&& self.satellites == s[68]
        &&& self.flags == le_u32(s, 69)
        &&& self.battery_bits == le_u32(s, 73)
        &&& Some(self.state) == flight_state_of(s[77])
        &&& self.relay == relay_state_of(s[78])
        &&& self.last_command == command_of(s[79]).unwrap_or(Command::NoCommand)
    }

    /// Whether the record carries a GPS position: a zero latitude and
    /// longitude mean no fix.
    pub fn has_position(&self) -> (r: bool)
        ensures
            r == (self.latitude_e7 != 0 || self.longitude_e7 != 0),
    {
        self.latitude_e7 != 0 || self.longitude_e7 != 0
    }
}

/// One entry of a byte-layout table: a named field, where it lies, and the
/// colour the raw-record viewer paints it in.
#[derive(Debug, Clone, Copy)]
pub struct PacketField {
    pub name: &'static str,
    pub offset: usize,
    pub length: usize,
    pub color: Rgb,
}

/// Entry `i` of the SD record layout: name, offset, length and colour.
pub open spec fn sd_record_field_spec(i: int) -> (Seq<char>, int, int, Rgb) {
    if i == 0 {
        ("SYNC"@, 0, 2, rgb(255, 255, 255))
    } else if i == 1 {
        ("TICK"@, 2, 4, rgb(100, 200, 255))
    } else if i == 2 {
        ("ACCEL X"@, 6, 4, rgb(255, 100, 100))
    } else if i == 3 {
        ("ACCEL Y"@, 10, 4, rgb(255, 130, 100))
    } else if i == 4 {
        ("ACCEL Z"@, 14, 4, rgb(255, 160, 100))
    } else if i == 5 {
        ("GYRO X"@, 18, 4, rgb(100, 255, 100))
    } else if i == 6 {
        ("GYRO Y"@, 22, 4, rgb(130, 255, 100))
    } else if i == 7 {
        ("GYRO Z"@, 26, 4, rgb(160, 255, 100))
    } else if i == 8 {
        ("MAG X"@, 30, 4, rgb(200, 100, 255))
    } else if i == 9 {
        ("MAG Y"@, 34, 4, rgb(220, 130, 255))
    } else if i == 10 {
        ("MAG Z"@, 38, 4, rgb(240, 160, 255))
    } else if i == 11 {
        ("PRESSURE"@, 42, 4, rgb(255, 200, 50))
    } else if i == 12 {
        ("TEMP"@, 46, 4, rgb(255, 150, 50))
    } else if i == 13 {
        ("LAT"@, 50, 4, rgb(50, 200, 200))
    } else if i == 14 {
        ("LON"@, 54, 4, rgb(80, 220, 200))
    } else if i == 15 {
        ("GPS ALT"@, 58, 4, rgb(110, 240, 200))
    } else if i == 16 {
        ("UNIX TIME"@, 62, 4, rgb(180, 180, 255))
    } else if i == 17 {
        ("MILLIS"@, 66, 2, rgb(160, 160, 235))
    } else if i == 18 {
        ("SATS"@, 68, 1, rgb(140, 255, 200))
    } else if i == 19 {
        ("FLAGS"@, 69, 4, rgb(255, 80, 80))
    } else if i == 20 {
        ("BATTERY"@, 73, 4, rgb(255, 255, 0))
    } else if i == 21 {
        ("STATE"@, 77, 1, rgb(0, 200, 255))
    } else if i == 22 {
        ("RELAY"@, 78, 1, rgb(255, 165, 0))
    } else if i == 23 {
        ("CMD"@, 79, 1, rgb(180, 180, 255))
    } else {
        ("SYNC END"@, 80, 1, rgb(255, 255, 255))
    }
}

/// Whether `f` is entry `i` of the SD record layout.
pub open spec fn is_sd_record_field(f: PacketField, i: int) -> bool {
    let e = sd_record_field_spec(i);
    &&& f.name@ == e.0
    &&& f.offset == e.1
    &&& f.length == e.2
    &&& f.color == e.3
}

/// Entry `i` of the SD record layout table.
pub fn sd_record_field(i: usize) -> (f: PacketField)
    requires
        i < SD_RECORD_FIELD_COUNT,
    ensures
        is_sd_record_field(f, i as int),
{
    let (name, offset, length, r, g, b): (&'static str, usize, usize, u8, u8, u8) = match i {
        0 => ("SYNC", 0, 2, 255, 255, 255),
        1 => ("TICK", 2, 4, 100, 200, 255),
        2 => ("ACCEL X", 6, 4, 255, 100, 100),
        3 => ("ACCEL Y", 10, 4, 255, 130, 100),
        4 => ("ACCEL Z", 14, 4, 255, 160, 100),
        5 => ("GYRO X", 18, 4, 100, 255, 100),
        6 => ("GYRO Y", 22, 4, 130, 255, 100),
        7 => ("GYRO Z", 26, 4, 160, 255, 100),
        8 => ("MAG X", 30, 4, 200, 100, 255),
        9 => ("MAG Y", 34, 4, 220, 130, 255),
        10 => ("MAG Z", 38, 4, 240, 160, 255),
        11 => ("PRESSURE", 42, 4, 255, 200, 50),
        12 => ("TEMP", 46, 4, 255, 150, 50),
        13 => ("LAT", 50, 4, 50, 200, 200),
        14 => ("LON", 54, 4, 80, 220, 200),
        15 => ("GPS ALT", 58, 4, 110, 240, 200),
        16 => ("UNIX TIME", 62, 4, 180, 180, 255),
        17 => ("MILLIS", 66, 2, 160, 160, 235),
        18 => ("SATS", 68, 1, 140, 255, 200),
        19 => ("FLAGS", 69, 4, 255, 80, 80),
        20 => ("BATTERY", 73, 4, 255, 255, 0),
        21 => ("STATE", 77, 1, 0, 200, 255),
        22 => ("RELAY", 78, 1, 255, 165, 0),
        23 => ("CMD", 79, 1, 180, 180, 255),
        _ => ("SYNC END", 80, 1, 255, 255, 255),
    };
    PacketField { name, offset, length, color: Rgb { r, g, b } }
}

/// A decoded record agrees with the layout table: each field is the
/// little-endian value of the bytes that its table entry names, of the
/// entry's width (the three axes of each sensor in x, y, z order).
pub proof fn lemma_sd_record_decodes_by_layout(r: SdRecord, s: Seq<u8>)
    requires
        r.decodes(s),
    ensures
        forall|k: int|
            0 <= k < 3 ==> #[trigger] r.accel_bits@[k] == le_u32(s, sd_record_field_spec(2 + k).1)
                && r.gyro_bits@[k] == le_u32(s, sd_record_field_spec(5 + k).1)
                && r.mag_bits@[k] == le_u32(s, sd_record_field_spec(8 + k).1)
                && sd_record_field_spec(2 + k).2 == 4 && sd_record_field_spec(5 + k).2 == 4
                && sd_record_field_spec(8 + k).2 == 4,
        sd_record_field_spec(2).0 == "ACCEL X"@ && sd_record_field_spec(3).0 == "ACCEL Y"@
            && sd_record_field_spec(4).0 == "ACCEL Z"@,
        sd_record_field_spec(5).0 == "GYRO X"@ && sd_record_field_spec(6).0 == "GYRO Y"@
            && sd_record_field_spec(7).0 == "GYRO Z"@,
        sd_record_field_spec(8).0 == "MAG X"@ && sd_record_field_spec(9).0 == "MAG Y"@
            && sd_record_field_spec(10).0 == "MAG Z"@,
        sd_record_field_spec(1).0 == "TICK"@ && sd_record_field_spec(1).2 == 4 && r.tick
            == le_u32(s, sd_record_field_spec(1).1),
        sd_record_field_spec(11).0 == "PRESSURE"@ && sd_record_field_spec(11).2 == 4
            && r.pressure_bits == le_u32(s, sd_record_field_spec(11).1),
        sd_record_field_spec(12).0 == "TEMP"@ && sd_record_field_spec(12).2 == 4
            && r.temperature_bits == le_u32(s, sd_record_field_spec(12).1),
        sd_record_field_spec(13).0 == "LAT"@ && sd_record_field_spec(13).2 == 4 && r.latitude_e7
            == le_i32(s, sd_record_field_spec(13).1),
        sd_record_field_spec(14).0 == "LON"@ && sd_record_field_spec(14).2 == 4 && r.longitude_e7
            == le_i32(s, sd_record_field_spec(14).1),
        sd_record_field_spec(15).0 == "GPS ALT"@ && sd_record_field_spec(15).2 == 4
            && r.gps_altitude_bits == le_u32(s, sd_record_field_spec(15).1),
        sd_record_field_spec(16).0 == "UNIX TIME"@ && sd_record_field_spec(16).2 == 4
            && r.unix_time == le_u32(s, sd_record_field_spec(16).1),
        sd_record_field_spec(17).0 == "MILLIS"@ && sd_record_field_spec(17).2 == 2
            && r.milliseconds == le_u16(s, sd_record_field_spec(17).1),
        sd_record_field_spec(18).0 == "SATS"@ && sd_record_field_spec(18).2 == 1 && r.satellites
            == s[sd_record_field_spec(18).1],
        sd_record_field_spec(19).0 == "FLAGS"@ && sd_record_field_spec(19).2 == 4 && r.flags
            == le_u32(s, sd_record_field_spec(19).1),
        sd_record_field_spec(20).0 == "BATTERY"@ && sd_record_field_spec(20).2 == 4
            && r.battery_bits == le_u32(s, sd_record_field_spec(20).1),
        sd_record_field_spec(21).0 == "STATE"@ && sd_record_field_spec(21).2 == 1 && Some(r.state)
            == flight_state_of(s[sd_record_field_spec(21).1]),
        sd_record_field_spec(22).0 == "RELAY"@ && sd_record_field_spec(22).2 == 1 && r.relay
            == relay_state_of(s[sd_record_field_spec(22).1]),
        sd_record_field_spec(23).0 == "CMD"@ && sd_record_field_spec(23).2 == 1 && r.last_command
            == command_of(s[sd_record_field_spec(23).1]).unwrap_or(Command::NoCommand),
{
    assert forall|k: int| 0 <= k < 3 implies #[trigger] r.accel_bits@[k] == le_u32(
        s,
        sd_record_field_spec(2 + k).1,
    ) && r.gyro_bits@[k] == le_u32(s, sd_record_field_spec(5 + k).1) && r.mag_bits@[k] == le_u32(
        s,
        sd_record_field_spec(8 + k).1,
    ) && sd_record_field_spec(2 + k).2 == 4 && sd_record_field_spec(5 + k).2 == 4
        && sd_record_field_spec(8 + k).2 == 4 by {
        if k == 0 {
        } else if k == 1 {
        } else {
        }
    }
}

/// The layout table tiles the record: the entries follow one another without
/// gap or overlap, from byte 0 to the end of the record.
pub proof fn lemma_sd_record_fields_tile_record()
    ensures
        sd_record_field_spec(0).1 == 0,
        forall|i: int|
            0 <= i < SD_RECORD_FIELD_COUNT - 1 ==> #[trigger] sd_record_field_spec(i + 1).1
                == sd_record_field_spec(i).1 + sd_record_field_spec(i).2,
        sd_record_field_spec(SD_RECORD_FIELD_COUNT - 1).1 + sd_record_field_spec(
            SD_RECORD_FIELD_COUNT - 1,
        ).2 == SD_RECORD_SIZE,
        forall|i: int| 0 <= i < SD_RECORD_FIELD_COUNT ==> #[trigger] sd_record_field_spec(i).2 > 0,
{
}

} // verus!
