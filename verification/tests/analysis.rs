use ground_station::sd_log::record::{SdRecord, SD_RECORD_SIZE};
use ground_station::sd_viewer::charts::{decimated_points, MAX_CHART_POINTS};
use ground_station::sd_viewer::state::{
    build_state_segments, detect_command_events, detect_gaps, detect_relay_events,
    expected_tick_delta, gap_detection_is_defined, marker_rows, segment_groups, DataSource,
    FlightStateExt, GapInfo, StateSegment, TimelineMarker,
};
use ground_station::telemetry::packet::{Command, FlightState, RelayState};
use ground_station::ui::theme::Rgb;

fn rec(tick: u32, state: FlightState) -> SdRecord {
    SdRecord {
        raw: [0u8; SD_RECORD_SIZE],
        tick,
        accel_bits: [0; 3],
        gyro_bits: [0; 3],
        mag_bits: [0; 3],
        pressure_bits: 0,
        temperature_bits: 0,
        latitude_e7: 0,
        longitude_e7: 0,
        gps_altitude_bits: 0,
        unix_time: 0,
        milliseconds: 0,
        satellites: 0,
        flags: 0,
        battery_bits: 0,
        state,
        relay: RelayState { drogue_fired: false, parachute_fired: false },
        last_command: Command::NoCommand,
    }
}

#[test]
fn segments_follow_state_changes() {
    let records = vec![
        rec(1000, FlightState::Idle),
        rec(1010, FlightState::Idle),
        rec(1020, FlightState::Burn),
        rec(1030, FlightState::Burn),
        rec(1040, FlightState::Apogee),
    ];
    let segs = build_state_segments(&records);
    assert_eq!(segs.len(), 3);
    assert_eq!((segs[0].start_tick, segs[0].end_tick, segs[0].state), (1000, 1020, FlightState::Idle));
    assert_eq!((segs[1].start_tick, segs[1].end_tick, segs[1].state), (1020, 1040, FlightState::Burn));
    assert_eq!((segs[2].start_tick, segs[2].end_tick, segs[2].state), (1040, 1040, FlightState::Apogee));
    assert_eq!(segs[1].label(), "BOOST");
    assert_eq!(segs[1].color(), Rgb { r: 255, g: 140, b: 0 });
}

#[test]
fn segments_of_empty_and_single_logs() {
    assert!(build_state_segments(&[]).is_empty());
    let segs = build_state_segments(&[rec(7, FlightState::Landed)]);
    assert_eq!(segs.len(), 1);
    assert_eq!((segs[0].start_tick, segs[0].end_tick), (7, 7));
    assert_eq!(FlightState::Parachute.label(), "MAIN PARACHUTE");
    assert_eq!(FlightState::Idle.timeline_color(), Rgb { r: 120, g: 120, b: 120 });
}

#[test]
fn gaps_are_spacings_above_twice_the_median() {
    let ticks = [0u32, 10, 20, 30, 80, 90, 100];
    let records: Vec<SdRecord> = ticks.iter().map(|&t| rec(t, FlightState::Idle)).collect();
    assert_eq!(expected_tick_delta(&records), Some(10));
    assert!(gap_detection_is_defined(&records));
    let gaps = detect_gaps(&records);
    assert_eq!(
        gaps,
        vec![GapInfo { start_tick: 30, end_tick: 80, dropped: 4, delta_ticks: 50, expected_ticks: 10 }]
    );
}

#[test]
fn even_log_has_no_gaps() {
    let records: Vec<SdRecord> = (0..20u32).map(|i| rec(i * 5, FlightState::Idle)).collect();
    assert!(detect_gaps(&records).is_empty());
    assert!(detect_gaps(&records[..1]).is_empty());
    assert_eq!(expected_tick_delta(&records[..1]), None);
}

#[test]
fn tick_counter_wraparound_is_a_small_spacing() {
    let records = vec![
        rec(u32::MAX - 9, FlightState::Idle),
        rec(0, FlightState::Idle),
        rec(10, FlightState::Idle),
    ];
    assert_eq!(expected_tick_delta(&records), Some(10));
    assert!(detect_gaps(&records).is_empty());
}

#[test]
fn median_takes_the_upper_middle_value() {
    let ticks = [0u32, 1, 3, 6, 10];
    let records: Vec<SdRecord> = ticks.iter().map(|&t| rec(t, FlightState::Idle)).collect();
    // spacings 1, 2, 3, 4: the upper middle is 3
    assert_eq!(expected_tick_delta(&records), Some(3));
}

#[test]
fn gap_detection_undefined_when_median_is_zero() {
    let records = vec![
        rec(5, FlightState::Idle),
        rec(5, FlightState::Idle),
        rec(5, FlightState::Idle),
        rec(9, FlightState::Idle),
    ];
    assert_eq!(expected_tick_delta(&records), Some(0));
    assert!(!gap_detection_is_defined(&records));
    let flat = vec![rec(5, FlightState::Idle), rec(5, FlightState::Idle)];
    assert!(gap_detection_is_defined(&flat));
    assert!(detect_gaps(&flat).is_empty());
    let wide = vec![rec(0, FlightState::Idle), rec(3_000_000_000, FlightState::Idle)];
    assert!(!gap_detection_is_defined(&wide));
}

#[test]
fn relay_events_mark_rising_edges() {
    let mut records: Vec<SdRecord> = (0..5u32).map(|i| rec(i * 10, FlightState::Apogee)).collect();
    records[1].relay.drogue_fired = true;
    records[2].relay.drogue_fired = true;
    records[2].relay.parachute_fired = true;
    records[4].relay.drogue_fired = true;
    let markers = detect_relay_events(&records);
    let got: Vec<(u32, &str, bool)> = markers.iter().map(|m| (m.tick, m.label, m.is_command)).collect();
    assert_eq!(got, vec![(10, "DROGUE", false), (20, "PARACHUTE", false), (40, "DROGUE", false)]);
    assert_eq!(markers[0].color, Rgb { r: 255, g: 165, b: 0 });
    assert_eq!(markers[1].color, Rgb { r: 0, g: 200, b: 255 });
}

#[test]
fn command_events_mark_changes() {
    let mut records: Vec<SdRecord> = (0..6u32).map(|i| rec(i * 10, FlightState::Prelaunch)).collect();
    records[1].last_command = Command::Calibration;
    records[2].last_command = Command::Calibration;
    records[3].last_command = Command::NoCommand;
    records[4].last_command = Command::Reset;
    records[5].last_command = Command::GroundAbort;
    let markers = detect_command_events(&records);
    let got: Vec<(u32, &str, bool)> = markers.iter().map(|m| (m.tick, m.label, m.is_command)).collect();
    assert_eq!(
        got,
        vec![(10, "CMD: CALIBRATION", true), (40, "CMD: RESET", true), (50, "CMD: GROUND ABORT", true)]
    );
    assert_eq!(markers[2].color, Rgb { r: 255, g: 50, b: 50 });
}

#[test]
fn data_source_properties() {
    assert!(DataSource::SdLog.has_full_data());
    assert!(!DataSource::FlashLog.has_full_data());
    assert_eq!(DataSource::SdLog.label(), "SD");
    assert_eq!(DataSource::FlashLog.label(), "FLASH");
}

#[test]
fn short_series_are_drawn_whole() {
    let ts = [0.0f64, 0.5, 1.0];
    let vs = [10.0f64, 20.0, 30.0, 40.0];
    assert_eq!(decimated_points(&ts, &vs), vec![[0.0, 10.0], [0.5, 20.0], [1.0, 30.0]]);
    let empty: [f64; 0] = [];
    assert!(decimated_points(&empty, &vs).is_empty());
}

#[test]
fn long_series_are_sampled_with_a_stride() {
    let n = 3 * MAX_CHART_POINTS + 7;
    let ts: Vec<u32> = (0..n as u32).collect();
    let vs: Vec<u32> = (0..n as u32).map(|i| i * 2).collect();
    let points = decimated_points(&ts, &vs);
    assert_eq!(points.len(), MAX_CHART_POINTS + 3);
    assert_eq!(points[0], [0, 0]);
    assert_eq!(points[1], [3, 6]);
    assert_eq!(points[MAX_CHART_POINTS + 2], [3 * (MAX_CHART_POINTS as u32 + 2), 6 * (MAX_CHART_POINTS as u32 + 2)]);
}

#[test]
fn markers_on_one_tick_are_stacked() {
    let m = |tick: u32| TimelineMarker { tick, label: "X", color: Rgb { r: 1, g: 2, b: 3 }, is_command: false };
    let markers = [m(5), m(7), m(5), m(5), m(7)];
    assert_eq!(marker_rows(&markers), vec![0, 0, 1, 2, 1]);
    assert!(marker_rows(&[]).is_empty());
}

#[test]
fn segments_are_grouped_by_state_in_code_order() {
    let seg = |start_tick: u32, state: FlightState| StateSegment { start_tick, end_tick: start_tick + 10, state };
    let segs = [
        seg(0, FlightState::Landed),
        seg(10, FlightState::Burn),
        seg(20, FlightState::Landed),
        seg(30, FlightState::Idle),
    ];
    assert_eq!(
        segment_groups(&segs),
        vec![
            (FlightState::Idle, vec![3]),
            (FlightState::Burn, vec![1]),
            (FlightState::Landed, vec![0, 2]),
        ]
    );
    assert!(segment_groups(&[]).is_empty());
}
