use ground_station::telemetry::packet::{
    active_faults, build_command_frame, sensor_failed, sensor_name, Command, FlightState,
    RelayState, PACKET_SIZE, SENSOR_COUNT, SYNC_END,
};
use ground_station::ui::theme::{flight_state_tone, satellite_tone, Tone};
use ground_station::telemetry::parser::{parse_packet, StreamParser};

fn make_test_packet() -> [u8; PACKET_SIZE] {
    let mut buf = [0u8; PACKET_SIZE];
    buf[0] = 0xFE;
    buf[1] = 0xCA;
    buf[2..6].copy_from_slice(&1000u32.to_le_bytes());
    buf[6..8].copy_from_slice(&9i16.to_le_bytes());
    buf[48] = 0;
    buf[49] = 0;
    buf[50] = 0;
    buf[PACKET_SIZE - 1] = SYNC_END;
    buf
}

#[test]
fn parse_valid_packet() {
    let buf = make_test_packet();
    let t = parse_packet(&buf).unwrap();
    assert_eq!(t.tick, 1000);
    assert!((t.accel[0] as f64 - 9.0).abs() < 0.01);
    assert_eq!(t.state, FlightState::Idle);
}

#[test]
fn reject_bad_sync() {
    let mut buf = make_test_packet();
    buf[0] = 0x00;
    assert!(parse_packet(&buf).is_none());
}

#[test]
fn reject_bad_footer() {
    let mut buf = make_test_packet();
    buf[PACKET_SIZE - 1] = 0x00;
    assert!(parse_packet(&buf).is_none());
}

#[test]
fn stream_parser_resync() {
    let mut parser = StreamParser::new();
    let pkt = make_test_packet();
    let mut data = vec![0xAA, 0xBB, 0xCC];
    data.extend_from_slice(&pkt);
    let results = parser.feed(&data);
    assert_eq!(results.len(), 1);
    assert_eq!(results[0].tick, 1000);
}

#[test]
fn parse_decodes_every_field() {
    let mut buf = make_test_packet();
    buf[8..10].copy_from_slice(&(-2i16).to_le_bytes());
    buf[10..12].copy_from_slice(&300i16.to_le_bytes());
    buf[12..14].copy_from_slice(&(-7i16).to_le_bytes());
    buf[18..20].copy_from_slice(&25000i16.to_le_bytes());
    buf[20] = 0xF6; // -10 degrees
    buf[21..25].copy_from_slice(&401234567i32.to_le_bytes());
    buf[25..29].copy_from_slice(&(-37654321i32).to_le_bytes());
    buf[29..33].copy_from_slice(&123456i32.to_le_bytes());
    buf[33] = 9;
    buf[34..38].copy_from_slice(&(-150i32).to_le_bytes());
    buf[38..42].copy_from_slice(&4200i32.to_le_bytes());
    buf[42..46].copy_from_slice(&0x0000_0301u32.to_le_bytes());
    buf[46..48].copy_from_slice(&812i16.to_le_bytes());
    buf[48] = 3;
    buf[49] = 0x03;
    buf[50] = 0x04;
    let t = parse_packet(&buf).unwrap();
    assert_eq!(t.accel, [9, -2, 300]);
    assert_eq!(t.gyro, [-7, 0, 0]);
    assert_eq!(t.pressure_raw, 25000);
    assert_eq!(t.temperature_c, -10);
    assert_eq!(t.latitude_e7, 401234567);
    assert_eq!(t.longitude_e7, -37654321);
    assert_eq!(t.gps_altitude_cm, 123456);
    assert_eq!(t.satellites, 9);
    assert_eq!(t.baro_altitude_cm, -150);
    assert_eq!(t.baro_velocity_cms, 4200);
    assert_eq!(t.flags, 0x301);
    assert_eq!(t.battery_raw, 812);
    assert_eq!(t.state, FlightState::Burn);
    assert_eq!(t.relay, RelayState { drogue_fired: true, parachute_fired: true });
    assert_eq!(t.last_command, Command::Drogue);
    assert_eq!(t.raw, buf);
    assert!(t.has_position());
}

#[test]
fn unknown_state_is_rejected_and_unknown_command_reads_as_none() {
    let mut buf = make_test_packet();
    buf[48] = 11;
    assert!(parse_packet(&buf).is_none());
    let mut buf = make_test_packet();
    buf[50] = 0x77;
    assert_eq!(parse_packet(&buf).unwrap().last_command, Command::NoCommand);
    assert!(!parse_packet(&buf).unwrap().has_position());
}

#[test]
fn stream_parser_waits_for_the_rest_of_a_packet() {
    let pkt = make_test_packet();
    let mut parser = StreamParser::new();
    assert!(parser.feed(&pkt[..40]).is_empty());
    let results = parser.feed(&pkt[40..]);
    assert_eq!(results.len(), 1);
    assert_eq!(results[0].tick, 1000);
}

#[test]
fn stream_parser_chunked_equals_whole() {
    let mut stream = vec![0x11, 0xFE, 0x00];
    for tick in [1u32, 2, 3] {
        let mut p = make_test_packet();
        p[2..6].copy_from_slice(&tick.to_le_bytes());
        stream.extend_from_slice(&p);
        stream.push(0x42);
    }
    let mut whole = StreamParser::new();
    let all: Vec<u32> = whole.feed(&stream).iter().map(|t| t.tick).collect();
    assert_eq!(all, vec![1, 2, 3]);
    for cut in [1usize, 50, 95, 97, 150, 250] {
        let mut parser = StreamParser::new();
        let mut ticks: Vec<u32> = parser.feed(&stream[..cut]).iter().map(|t| t.tick).collect();
        ticks.extend(parser.feed(&stream[cut..]).iter().map(|t| t.tick));
        assert_eq!(ticks, all, "cut at {}", cut);
    }
}

#[test]
fn stream_parser_skips_a_sync_word_without_end_marker() {
    let mut bad = make_test_packet();
    bad[PACKET_SIZE - 1] = 0x00;
    let good = make_test_packet();
    let mut data = bad.to_vec();
    data.truncate(40);
    data.extend_from_slice(&good);
    let mut parser = StreamParser::new();
    let results = parser.feed(&data);
    assert_eq!(results.len(), 1);
    assert_eq!(results[0].tick, 1000);
}

#[test]
fn stream_parser_drops_frames_with_unknown_state() {
    let mut bad = make_test_packet();
    bad[48] = 200;
    let good = make_test_packet();
    let mut data = bad.to_vec();
    data.extend_from_slice(&good);
    let mut parser = StreamParser::new();
    let results = parser.feed(&data);
    assert_eq!(results.len(), 1);
}

#[test]
fn stream_parser_bounds_its_buffer() {
    let mut parser = StreamParser::new();
    let mut noise = vec![0x55u8; 600];
    noise[599] = 0xFE;
    assert!(parser.feed(&noise).is_empty());
    // The last byte of the noise starts a sync word that the next read completes.
    let pkt = make_test_packet();
    let results = parser.feed(&pkt[1..]);
    assert_eq!(results.len(), 1);
    assert_eq!(results[0].tick, 1000);
}

#[test]
fn flight_state_codes_round_trip() {
    for v in 0u8..=10 {
        let s = FlightState::from_u8(v).unwrap();
        assert_eq!(s.as_u8(), v);
    }
    assert_eq!(FlightState::from_u8(11), None);
    assert_eq!(FlightState::from_u8(255), None);
    assert_eq!(FlightState::PassiveBurnout.name(), "PASSIVE BURNOUT");
    assert_eq!(FlightState::DescentAbort.name(), "DESCENT ABORT");
}

#[test]
fn command_codes_round_trip() {
    for v in 0u8..=5 {
        assert_eq!(Command::from_u8(v).unwrap().command_byte(), v);
    }
    assert_eq!(Command::from_u8(6), None);
    assert_eq!(Command::GroundAbort.name(), "GROUND ABORT");
    assert_eq!(Command::NoCommand.name(), "NONE");
}

#[test]
fn relay_byte_round_trip() {
    for v in 0u8..=255 {
        let r = RelayState::from_u8(v);
        assert_eq!(r.to_u8(), v & 3);
        assert_eq!(RelayState::from_u8(r.to_u8()), r);
    }
    assert_eq!(RelayState::from_u8(0x02), RelayState { drogue_fired: false, parachute_fired: true });
}

#[test]
fn command_frame_layout() {
    assert_eq!(build_command_frame(Command::Drogue), [0xFE, 0xCA, 0x04, 0x00, 0xBE]);
    assert_eq!(build_command_frame(Command::NoCommand), [0xFE, 0xCA, 0x00, 0x00, 0xBE]);
    let f = build_command_frame(Command::Landed);
    assert_eq!(u16::from_le_bytes([f[0], f[1]]), 0xCAFE);
    assert_eq!(Command::from_u8(f[2]), Some(Command::Landed));
}

#[test]
fn fault_flags_are_named_in_bit_order() {
    assert!(active_faults(0).is_empty());
    assert_eq!(active_faults(0b1), vec!["BMP280 Idle Failed"]);
    assert_eq!(
        active_faults((1 << 9) | (1 << 4) | (1 << 31)),
        vec!["IIM42653 Idle Failed", "SD Open Failed"]
    );
    assert_eq!(active_faults(u32::MAX).len(), 10);
}

#[test]
fn sensors_fail_on_either_of_their_fault_bits() {
    assert_eq!(SENSOR_COUNT, 5);
    assert_eq!(sensor_name(0), "BMP280");
    assert_eq!(sensor_name(4), "SD");
    for i in 0..SENSOR_COUNT {
        assert!(!sensor_failed(0, i));
        assert!(sensor_failed(u32::MAX, i));
    }
    // 0x0C: both BMP581 bits; 0x200: the second SD bit.
    let flags = 0x0C | 0x200;
    let failed: Vec<bool> = (0..SENSOR_COUNT).map(|i| sensor_failed(flags, i)).collect();
    assert_eq!(failed, vec![false, true, false, false, true]);
    assert!(sensor_failed(0x40, 3));
    assert!(!sensor_failed(0x400, 4));
}

#[test]
fn status_tones() {
    assert_eq!(flight_state_tone(FlightState::Idle), Tone::Neutral);
    assert_eq!(flight_state_tone(FlightState::Burn), Tone::Boost);
    assert_eq!(flight_state_tone(FlightState::Apogee), Tone::Good);
    assert_eq!(flight_state_tone(FlightState::Parachute), Tone::Good);
    assert_eq!(flight_state_tone(FlightState::GroundAbort), Tone::Bad);
    assert_eq!(flight_state_tone(FlightState::DescentAbort), Tone::Bad);
    assert_eq!(flight_state_tone(FlightState::Prelaunch), Tone::Caution);
    assert_eq!(flight_state_tone(FlightState::Landed), Tone::Caution);
    assert_eq!(satellite_tone(3), Tone::Bad);
    assert_eq!(satellite_tone(4), Tone::Good);
}
