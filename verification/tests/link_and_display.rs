use ground_station::serial::worker::{SerialAction, SerialCommand, SerialEvent, SerialSession};
use ground_station::state::{flight_state_changed, BoundedSeries, MAX_DATA_POINTS};
use ground_station::telemetry::packet::{Command, FlightState, PACKET_SIZE, SYNC_END};
use ground_station::time::{clock_part, record_utc_time, record_utc_timestamp};
use ground_station::ui::hex_viewer::{byte_field, darken, field_color};
use ground_station::ui::map::EsriSatellite;
use ground_station::ui::theme::Rgb;

fn packet(tick: u32) -> [u8; PACKET_SIZE] {
    let mut buf = [0u8; PACKET_SIZE];
    buf[0] = 0xFE;
    buf[1] = 0xCA;
    buf[2..6].copy_from_slice(&tick.to_le_bytes());
    buf[PACKET_SIZE - 1] = SYNC_END;
    buf
}

#[test]
fn session_connects_sends_and_disconnects() {
    let mut s = SerialSession::new();
    assert!(!s.connected());
    let (action, event) = s.on_command(SerialCommand::SendCommand(Command::Reset));
    assert!(matches!(action, SerialAction::Nothing));
    assert!(event.is_none());

    let (action, event) = s.on_command(SerialCommand::Connect { port: "COM3".to_string(), baud: 115200 });
    match action {
        SerialAction::OpenPort { port, baud } => {
            assert_eq!(port, "COM3");
            assert_eq!(baud, 115200);
        }
        _ => panic!("expected an open request"),
    }
    assert!(event.is_none());
    assert!(!s.connected());

    match s.on_open_result("COM3".to_string(), Ok(())) {
        SerialEvent::Connected(p) => assert_eq!(p, "COM3"),
        _ => panic!("expected a connection"),
    }
    assert!(s.connected());

    let (action, _) = s.on_command(SerialCommand::SendCommand(Command::Drogue));
    match action {
        SerialAction::Write(frame) => assert_eq!(frame, [0xFE, 0xCA, 0x04, 0x00, 0xBE]),
        _ => panic!("expected a write"),
    }

    let (action, event) = s.on_command(SerialCommand::Disconnect);
    assert!(matches!(action, SerialAction::ClosePort));
    assert!(matches!(event, Some(SerialEvent::Disconnected)));
    assert!(!s.connected());
}

#[test]
fn session_reports_open_failure_and_read_errors() {
    let mut s = SerialSession::new();
    match s.on_open_result("COM9".to_string(), Err("no such port".to_string())) {
        SerialEvent::Error(m) => assert_eq!(m, "no such port"),
        _ => panic!("expected an error"),
    }
    assert!(!s.connected());
    let _ = s.on_open_result("COM9".to_string(), Ok(()));
    assert!(s.on_read_error(true, "timed out".to_string()).is_empty());
    assert!(s.connected());
    let events = s.on_read_error(false, "device gone".to_string());
    assert_eq!(events.len(), 2);
    assert!(matches!(&events[0], SerialEvent::Error(m) if m == "device gone"));
    assert!(matches!(events[1], SerialEvent::Disconnected));
    assert!(!s.connected());
}

#[test]
fn session_frames_packets_across_reads() {
    let mut s = SerialSession::new();
    let _ = s.on_open_result("COM1".to_string(), Ok(()));
    let mut data = packet(7).to_vec();
    data.extend_from_slice(&packet(8)[..20]);
    let events = s.on_bytes(&data);
    assert_eq!(events.len(), 1);
    assert!(matches!(&events[0], SerialEvent::Packet(t) if t.tick == 7));
    let events = s.on_bytes(&packet(8)[20..]);
    assert_eq!(events.len(), 1);
    assert!(matches!(&events[0], SerialEvent::Packet(t) if t.tick == 8));
}

#[test]
fn bounded_series_keeps_the_newest() {
    let mut s: BoundedSeries<u32> = BoundedSeries::new(3);
    for v in 1..=5u32 {
        s.push(v);
    }
    assert_eq!(s.len(), 3);
    assert_eq!(s.as_deque().iter().copied().collect::<Vec<_>>(), vec![3, 4, 5]);
    assert_eq!(*s.get(0), 3);
    s.clear();
    assert_eq!(s.len(), 0);
    let mut big: BoundedSeries<u32> = BoundedSeries::new(MAX_DATA_POINTS);
    for v in 0..(MAX_DATA_POINTS as u32 + 10) {
        big.push(v);
    }
    assert_eq!(big.len(), MAX_DATA_POINTS);
    assert_eq!(*big.get(0), 10);
}

#[test]
fn state_change_detection() {
    assert!(flight_state_changed(None, FlightState::Idle));
    assert!(!flight_state_changed(Some(FlightState::Idle), FlightState::Idle));
    assert!(flight_state_changed(Some(FlightState::Idle), FlightState::Calibration));
}

#[test]
fn utc_time_of_record() {
    assert_eq!(record_utc_time(3661, 5).as_deref(), Some("01:01:01.005"));
    assert_eq!(record_utc_time(1_700_000_000, 999).as_deref(), Some("22:13:20.999"));
    assert_eq!(record_utc_time(1_700_000_000, 1000), None);
    // a leap second after second 59 of a minute
    assert_eq!(record_utc_time(59, 1500).as_deref(), Some("00:00:60.500"));
}

#[test]
fn tile_urls() {
    let src = EsriSatellite;
    assert_eq!(
        src.tile_url(12, 2048, 1361),
        "https://server.arcgisonline.com/ArcGIS/rest/services/World_Imagery/MapServer/tile/12/1361/2048"
    );
    assert_eq!(src.max_zoom(), 18);
}

#[test]
fn hex_view_fields() {
    assert_eq!(byte_field(0), "SYNC");
    assert_eq!(byte_field(77), "STATE");
    assert_eq!(byte_field(80), "SYNC END");
    assert_eq!(byte_field(81), "?");
    assert_eq!(field_color(2, true), Rgb { r: 100, g: 200, b: 255 });
    assert_eq!(field_color(2, false), Rgb { r: 60, g: 120, b: 153 });
    assert_eq!(field_color(500, true), Rgb { r: 160, g: 160, b: 160 });
    assert_eq!(darken(Rgb { r: 255, g: 9, b: 0 }), Rgb { r: 153, g: 5, b: 0 });
}

#[test]
fn utc_timestamp_of_record() {
    assert_eq!(
        record_utc_timestamp(1_700_000_000, 999).as_deref(),
        Some("2023-11-14 22:13:20.999 UTC")
    );
    assert_eq!(record_utc_timestamp(0, 0).as_deref(), Some("1970-01-01 00:00:00.000 UTC"));
    assert_eq!(record_utc_timestamp(10, 1000), None);
    assert_eq!(record_utc_timestamp(951_782_400, 0).as_deref(), Some("2000-02-29 00:00:00.000 UTC"));
    assert_eq!(record_utc_timestamp(u32::MAX, 7).as_deref(), Some("2106-02-07 06:28:15.007 UTC"));
    assert_eq!(clock_part("2023-11-14 22:13:20.999 UTC"), "22:13:20.999");
}
