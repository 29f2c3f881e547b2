use ground_station::sd_log::parser::{parse_sd_file, parse_sd_record};
use ground_station::sd_log::record::{sd_record_field, SD_RECORD_FIELD_COUNT, SD_RECORD_SIZE, SD_SYNC_END};
use ground_station::telemetry::packet::{Command, FlightState};

fn make_test_sd_record() -> [u8; SD_RECORD_SIZE] {
    let mut buf = [0u8; SD_RECORD_SIZE];
    buf[0] = 0xFE; // sync LSB
    buf[1] = 0xCA; // sync MSB
    buf[2..6].copy_from_slice(&500u32.to_le_bytes()); // tick
    buf[6..10].copy_from_slice(&9.81f32.to_le_bytes());
    buf[77] = 0; // state = Idle
    buf[78] = 0; // relay
    buf[79] = 0; // command
    buf[SD_RECORD_SIZE - 1] = SD_SYNC_END;
    buf
}

#[test]
fn parse_valid_sd_record() {
    let buf = make_test_sd_record();
    let r = parse_sd_record(&buf).unwrap();
    assert_eq!(r.tick, 500);
    assert!((f32::from_bits(r.accel_bits[0]) as f64 - 9.81).abs() < 0.001);
    assert_eq!(r.state, FlightState::Idle);
}

#[test]
fn parser_reject_bad_sync() {
    let mut buf = make_test_sd_record();
    buf[0] = 0x00;
    assert!(parse_sd_record(&buf).is_none());
}

#[test]
fn parser_reject_bad_footer() {
    let mut buf = make_test_sd_record();
    buf[SD_RECORD_SIZE - 1] = 0x00;
    assert!(parse_sd_record(&buf).is_none());
}

#[test]
fn parse_file_aligned() {
    let rec = make_test_sd_record();
    let mut data = Vec::new();
    data.extend_from_slice(&rec);
    data.extend_from_slice(&rec);
    data.extend_from_slice(&rec);
    let results = parse_sd_file(&data);
    assert_eq!(results.len(), 3);
}

#[test]
fn parse_file_with_garbage_prefix() {
    let rec = make_test_sd_record();
    let mut data = vec![0xAA, 0xBB, 0xCC];
    data.extend_from_slice(&rec);
    let results = parse_sd_file(&data);
    assert_eq!(results.len(), 1);
    assert_eq!(results[0].tick, 500);
}

#[test]
fn sd_record_decodes_every_field() {
    let mut buf = make_test_sd_record();
    buf[50..54].copy_from_slice(&(-123456789i32).to_le_bytes());
    buf[54..58].copy_from_slice(&987654321i32.to_le_bytes());
    buf[62..66].copy_from_slice(&1_700_000_000u32.to_le_bytes());
    buf[66..68].copy_from_slice(&250u16.to_le_bytes());
    buf[68] = 12;
    buf[69..73].copy_from_slice(&0x200u32.to_le_bytes());
    buf[73..77].copy_from_slice(&7.4f32.to_le_bytes());
    buf[77] = 8;
    buf[78] = 1;
    buf[79] = 9;
    let r = parse_sd_record(&buf).unwrap();
    assert_eq!(r.latitude_e7, -123456789);
    assert_eq!(r.longitude_e7, 987654321);
    assert_eq!(r.unix_time, 1_700_000_000);
    assert_eq!(r.milliseconds, 250);
    assert_eq!(r.satellites, 12);
    assert_eq!(r.flags, 0x200);
    assert_eq!(f32::from_bits(r.battery_bits), 7.4f32);
    assert_eq!(r.state, FlightState::Landed);
    assert!(r.relay.drogue_fired && !r.relay.parachute_fired);
    assert_eq!(r.last_command, Command::NoCommand);
    assert_eq!(r.raw, buf);
    assert!(r.has_position());
    buf[77] = 42;
    assert!(parse_sd_record(&buf).is_none());
}

#[test]
fn parse_file_resynchronises_after_a_torn_record() {
    let rec = make_test_sd_record();
    let mut second = make_test_sd_record();
    second[2..6].copy_from_slice(&600u32.to_le_bytes());
    let mut data = rec[..30].to_vec();
    data.extend_from_slice(&second);
    data.extend_from_slice(&rec);
    data.extend_from_slice(&rec[..50]);
    let ticks: Vec<u32> = parse_sd_file(&data).iter().map(|r| r.tick).collect();
    assert_eq!(ticks, vec![600, 500]);
}

#[test]
fn parse_file_of_nothing() {
    assert!(parse_sd_file(&[]).is_empty());
    assert!(parse_sd_file(&[0xFE, 0xCA]).is_empty());
    assert!(parse_sd_file(&[0u8; 200]).is_empty());
}

#[test]
fn record_layout_tiles_the_record() {
    let mut next = 0;
    for i in 0..SD_RECORD_FIELD_COUNT {
        let f = sd_record_field(i);
        assert_eq!(f.offset, next);
        next += f.length;
    }
    assert_eq!(next, SD_RECORD_SIZE);
    assert_eq!(sd_record_field(21).name, "STATE");
    assert_eq!(sd_record_field(21).offset, 77);
}

#[test]
fn noise_without_sync_start_changes_nothing() {
    let rec = make_test_sd_record();
    let mut log = Vec::new();
    log.extend_from_slice(&rec[..40]);
    log.extend_from_slice(&rec);
    log.extend_from_slice(&rec);
    let plain = parse_sd_file(&log);
    let mut noisy: Vec<u8> = (0u8..200).filter(|b| *b != 0xFE).collect();
    noisy.extend_from_slice(&log);
    let after_noise = parse_sd_file(&noisy);
    assert_eq!(plain.len(), 2);
    assert_eq!(after_noise.len(), plain.len());
    for (a, b) in plain.iter().zip(after_noise.iter()) {
        assert_eq!(a.raw, b.raw);
    }
}

#[test]
fn record_count_is_bounded_by_length() {
    let rec = make_test_sd_record();
    let mut data = Vec::new();
    for _ in 0..3 {
        data.extend_from_slice(&rec);
    }
    data.extend_from_slice(&rec[..SD_RECORD_SIZE - 1]);
    let results = parse_sd_file(&data);
    assert_eq!(results.len(), 3);
    assert!(results.len() <= data.len() / SD_RECORD_SIZE);
}
