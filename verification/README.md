# ground_station

A rocket ground station: it receives the flight computer's telemetry over a
serial link, sends it flight commands, records the stream, and replays the
SD-card log that the flight computer writes.

The library in `src/` is verified with Verus:

- `telemetry/`: the downlink packet (layout, flight states, relays, commands,
  fault flags, the uplink command frame) and the stream framer that finds
  packets in a byte stream.
- `sd_log/`: the SD log record and the parser that finds records in a file.
- `sd_viewer/`: log analysis (flight-state segments, gaps in the tick
  sequence, relay and command events) and chart decimation.
- `serial/`: the serial session as a state machine from events to actions.
- `state.rs`: bounded histories of the live view.
- `time.rs`: UTC rendering of record timestamps.
- `ui/`: the byte layout of the hex viewer, status tones, map tile URLs.

`app/` is the egui window around it: serial I/O, files, threads, charts, and
everything that computes in floating point.
