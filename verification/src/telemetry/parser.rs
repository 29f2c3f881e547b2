//! Decoding of one downlink packet, and the framer that recovers packets from
//! the raw serial byte stream.

use vstd::prelude::*;

use crate::bytes::{
    le_i16, le_i32, le_u16, le_u32, read_u16_le, read_u32_le, signed8, sync_at, to_i16, to_i32,
    to_i8,
};
use crate::telemetry::packet::{
    command_of, flight_state_of, packet_valid, relay_state_of, Command, FlightState, RelayState,
    Telemetry, PACKET_SIZE, SYNC_END, SYNC_WORD,
};

verus! {

/// A cursor over a packet's bytes that reads little-endian fields in order.
struct PacketReader<'a> {
    buf: &'a [u8],
    pos: usize,
}

impl<'a> PacketReader<'a> {
    fn new(buf: &'a [u8]) -> (r: Self)
        ensures
            r.buf@ == buf@,
            r.pos == 0,
    {
        Self { buf, pos: 0 }
    }

    fn u8(&mut self) -> (v: u8)
        requires
            old(self).pos + 1 <= old(self).buf@.len(),
        ensures
            v == old(self).buf@[old(self).pos as int],
            final(self).pos == old(self).pos + 1,
            final(self).buf@ == old(self).buf@,
    {
        let v = self.buf[self.pos];
        self.pos = self.pos + 1;
        v
    }

    fn u16_le(&mut self) -> (v: u16)
        requires
            old(self).pos + 2 <= old(self).buf@.len(),
        ensures
            v == le_u16(old(self).buf@, old(self).pos as int),
            final(self).pos == old(self).pos + 2,
            final(self).buf@ == old(self).buf@,
    {
        let v = read_u16_le(self.buf, self.pos);
        assert(self.buf@.len() == self.buf.len());
        self.pos = self.pos + 2;
        v
    }

    fn u32_le(&mut self) -> (v: u32)
        requires
            old(self).pos + 4 <= old(self).buf@.len(),
        ensures
            v == le_u32(old(self).buf@, old(self).pos as int),
            final(self).pos == old(self).pos + 4,
            final(self).buf@ == old(self).buf@,
    {
        let v = read_u32_le(self.buf, self.pos);
        assert(self.buf@.len() == self.buf.len());
        self.pos = self.pos + 4;
        v
    }

    fn i8(&mut self) -> (v: i8)
        requires
            old(self).pos + 1 <= old(self).buf@.len(),
        ensures
            v == signed8(old(self).buf@[old(self).pos as int] as int),
            final(self).pos == old(self).pos + 1,
            final(self).buf@ == old(self).buf@,
    {
        let v = to_i8(self.buf[self.pos]);
        self.pos = self.pos + 1;
        v
    }

    fn i16_le(&mut self) -> (v: i16)
        requires
            old(self).pos + 2 <= old(self).buf@.len(),
        ensures
            v == le_i16(old(self).buf@, old(self).pos as int),
            final(self).pos == old(self).pos + 2,
            final(self).buf@ == old(self).buf@,
    {
        let v = to_i16(read_u16_le(self.buf, self.pos));
        assert(self.buf@.len() == self.buf.len());
        self.pos = self.pos + 2;
        v
    }

    fn i32_le(&mut self) -> (v: i32)
        requires
            old(self).pos + 4 <= old(self).buf@.len(),
        ensures
            v == le_i32(old(self).buf@, old(self).pos as int),
            final(self).pos == old(self).pos + 4,
            final(self).buf@ == old(self).buf@,
    {
        let v = to_i32(read_u32_le(self.buf, self.pos));
        assert(self.buf@.len() == self.buf.len());
        self.pos = self.pos + 4;
        v
    }
}

/// Decodes one packet. Returns `None` exactly when the bytes do not start with
/// the sync word, do not end with the end marker, or carry an unknown
/// flight-state code.
pub fn parse_packet(buf: &[u8; PACKET_SIZE]) -> (r: Option<Telemetry>)
    ensures
        r is Some <==> packet_valid(buf@),
        r matches Some(t) ==> t.decodes(buf@),
{
    let mut r = PacketReader::new(buf.as_slice());

    let sync = r.u16_le();
    if sync != SYNC_WORD {
        return None;
    }
    if buf[PACKET_SIZE - 1] != SYNC_END {
        return None;
    }

    let tick = r.u32_le();
    let ax = r.i16_le();
    let ay = r.i16_le();
    let az = r.i16_le();
    let gx = r.i16_le();
    let gy = r.i16_le();
    let gz = r.i16_le();
    let pressure_raw = r.i16_le();
    let temperature_c = r.i8();
    let latitude_e7 = r.i32_le();
    let longitude_e7 = r.i32_le();
    let gps_altitude_cm = r.i32_le();
    let satellites = r.u8();
    let baro_altitude_cm = r.i32_le();
    let baro_velocity_cms = r.i32_le();
    let flags = r.u32_le();
    let battery_raw = r.i16_le();
    let state = match FlightState::from_u8(r.u8()) {
        Some(s) => s,
        None => {
            return None;
        },
    };
    let relay = RelayState::from_u8(r.u8());
    let last_command = match Command::from_u8(r.u8()) {
        Some(c) => c,
        None => Command::NoCommand,
    };

    Some(
        Telemetry {
            raw: *buf,
            tick,
            accel: [ax, ay, az],
            gyro: [gx, gy, gz],
            pressure_raw,
            temperature_c,
            latitude_e7,
            longitude_e7,
            gps_altitude_cm,
            satellites,
            baro_altitude_cm,
            baro_velocity_cms,
            flags,
            battery_raw,
            state,
            relay,
            last_command,
        },
    )
}

/// The framer keeps at most this many unconsumed bytes between reads; beyond
/// it, only the newest packet's worth of bytes is kept.
pub const MAX_BUFFERED: usize = 512;

/// The position of the first sync word in `s` at or after `i`.
pub open spec fn find_sync_from(s: Seq<u8>, i: int) -> Option<int>
    decreases s.len() - i,
{
    if i < 0 || i + 1 >= s.len() {
        None
    } else if sync_at(s, i) {
        Some(i)
    } else {
        find_sync_from(s, i + 1)
    }
}

/// What the framer makes of the buffered bytes `s`: the bytes it leaves
/// unconsumed, and the frames it accepts, in stream order.
///
/// Bytes before the first sync word are discarded. From a sync word, if fewer
/// than a packet's worth of bytes are buffered, they wait for more input. If
/// the byte where the packet would end is the end marker, the 95 bytes are
/// consumed as one frame, accepted when they decode as a packet; otherwise only
/// the sync word is skipped and the search resumes after it.
pub open spec fn scan(s: Seq<u8>) -> (Seq<u8>, Seq<Seq<u8>>)
    decreases s.len(),
{
    match find_sync_from(s, 0) {
        None => (s, Seq::empty()),
        Some(p) => {
            proof {
                lemma_find_sync_from(s, 0);
            }
            let t = s.skip(p);
            if t.len() < PACKET_SIZE {
                (t, Seq::empty())
            } else if t[PACKET_SIZE - 1] == SYNC_END {
                let f = t.take(PACKET_SIZE as int);
                let rest = scan(t.skip(PACKET_SIZE as int));
                (
                    rest.0,
                    if packet_valid(f) {
                        seq![f] + rest.1
                    } else {
                        rest.1
                    },
                )
            } else {
                scan(t.skip(2))
            }
        },
    }
}

/// The bytes kept after a read: all unconsumed bytes, unless there are more
/// than `MAX_BUFFERED`, in which case only the last packet's worth.
pub open spec fn retained(r: Seq<u8>) -> Seq<u8> {
    if r.len() > MAX_BUFFERED {
        r.skip(r.len() - PACKET_SIZE)
    } else {
        r
    }
}

/// The effect of feeding `data` to a framer holding `buf`: the bytes it then
/// holds, and the frames it accepts.
pub open spec fn feed_result(buf: Seq<u8>, data: Seq<u8>) -> (Seq<u8>, Seq<Seq<u8>>) {
    let r = scan(buf + data);
    (retained(r.0), r.1)
}

/// `find_sync_from` returns the first sync word at or after `i`.
pub proof fn lemma_find_sync_from(s: Seq<u8>, i: int)
    requires
        i >= 0,
    ensures
        match find_sync_from(s, i) {
            Some(p) => i <= p && sync_at(s, p) && forall|j: int| i <= j < p ==> !sync_at(s, j),
            None => forall|j: int| i <= j ==> !sync_at(s, j),
        },
    decreases s.len() - i,
{
    if i + 1 < s.len() && !sync_at(s, i) {
        lemma_find_sync_from(s, i + 1);
    }
}

/// Searching a suffix is searching the whole sequence from the suffix's start.
proof fn lemma_find_sync_shift(s: Seq<u8>, a: int, i: int)
    requires
        0 <= a <= s.len(),
        0 <= i,
    ensures
        find_sync_from(s.skip(a), i) == match find_sync_from(s, a + i) {
            Some(p) => Some(p - a),
            None => None::<int>,
        },
    decreases s.len() - a - i,
{
    let t = s.skip(a);
    if i + 1 < t.len() {
        assert(sync_at(t, i) == sync_at(s, a + i));
        if !sync_at(t, i) {
            lemma_find_sync_shift(s, a, i + 1);
        }
    }
}

/// A sync word at `p` with none before it is what the search finds.
proof fn lemma_find_sync_first(s: Seq<u8>, p: int)
    requires
        sync_at(s, p),
        forall|j: int| 0 <= j < p ==> !sync_at(s, j),
    ensures
        find_sync_from(s, 0) == Some(p),
{
    lemma_find_sync_from(s, 0);
}

/// Framing `s` and then `d` appended to what was left unconsumed gives what
/// framing `s + d` at once gives: the framer's decisions on `s` do not depend
/// on bytes that have not arrived yet.
pub proof fn lemma_scan_append(s: Seq<u8>, d: Seq<u8>)
    ensures
        scan(s + d).0 == scan(scan(s).0 + d).0,
        scan(s + d).1 == scan(s).1 + scan(scan(s).0 + d).1,
    decreases s.len(),
{
    lemma_find_sync_from(s, 0);
    match find_sync_from(s, 0) {
        None => {
            assert(scan(s).1 + scan(s + d).1 =~= scan(s + d).1);
        },
        Some(p) => {
            assert forall|j: int| 0 <= j < p implies !sync_at(s + d, j) by {
                assert(sync_at(s + d, j) == sync_at(s, j));
            }
            assert(sync_at(s + d, p));
            lemma_find_sync_first(s + d, p);
            let t = s.skip(p);
            assert((s + d).skip(p) =~= t + d);
            if t.len() < PACKET_SIZE {
                assert(sync_at(t + d, 0));
                assert((t + d).skip(0) =~= t + d);
                assert(scan(s).1 + scan(t + d).1 =~= scan(t + d).1);
            } else if t[PACKET_SIZE - 1] == SYNC_END {
                let u = t.skip(PACKET_SIZE as int);
                lemma_scan_append(u, d);
                assert((t + d).skip(PACKET_SIZE as int) =~= u + d);
                assert((t + d).take(PACKET_SIZE as int) =~= t.take(PACKET_SIZE as int));
                let f = t.take(PACKET_SIZE as int);
                if packet_valid(f) {
                    assert(seq![f] + (scan(u).1 + scan(scan(u).0 + d).1) =~= (seq![f] + scan(u).1)
                        + scan(scan(u).0 + d).1);
                }
            } else {
                let u = t.skip(2);
                lemma_scan_append(u, d);
                assert((t + d).skip(2) =~= u + d);
            }
        },
    }
}

/// A leftover a packet long or longer holds no sync word: the framer keeps
/// such a run of bytes only when it found no sync word in it.
proof fn lemma_long_leftover_has_no_sync(s: Seq<u8>)
    ensures
        scan(s).0.len() >= PACKET_SIZE ==> forall|j: int| 0 <= j ==> !sync_at(scan(s).0, j),
    decreases s.len(),
{
    lemma_find_sync_from(s, 0);
    match find_sync_from(s, 0) {
        None => {},
        Some(p) => {
            let t = s.skip(p);
            if t.len() >= PACKET_SIZE {
                if t[PACKET_SIZE - 1] == SYNC_END {
                    lemma_long_leftover_has_no_sync(t.skip(PACKET_SIZE as int));
                } else {
                    lemma_long_leftover_has_no_sync(t.skip(2));
                }
            }
        },
    }
}

/// Bytes that hold no sync word, not even one begun by their last byte, make
/// no difference to the frames found after them.
proof fn lemma_frames_after_noise(g: Seq<u8>, t: Seq<u8>)
    requires
        forall|j: int| 0 <= j < g.len() ==> !sync_at(g + t, j),
    ensures
        scan(g + t).1 == scan(t).1,
{
    let s = g + t;
    let n = g.len() as int;
    lemma_find_sync_from(t, 0);
    match find_sync_from(t, 0) {
        None => {
            assert forall|j: int| 0 <= j implies !sync_at(s, j) by {
                if j >= n {
                    assert(sync_at(s, j) == sync_at(t, j - n));
                }
            }
            lemma_find_sync_from(s, 0);
        },
        Some(m) => {
            assert(sync_at(s, n + m) == sync_at(t, m));
            assert forall|j: int| 0 <= j < n + m implies !sync_at(s, j) by {
                if j >= n {
                    assert(sync_at(s, j) == sync_at(t, j - n));
                }
            }
            lemma_find_sync_first(s, n + m);
            assert(s.skip(n + m) =~= t.skip(m));
        },
    }
}

/// Feeding two chunks in turn yields the same packets as feeding both at
/// once. It also leaves the same bytes buffered, unless the buffer was cut
/// back to a packet's worth after the first chunk.
pub proof fn lemma_feed_in_chunks(buf: Seq<u8>, a: Seq<u8>, b: Seq<u8>)
    ensures
        feed_result(buf, a).1 + feed_result(feed_result(buf, a).0, b).1 == feed_result(
            buf,
            a + b,
        ).1,
        scan(buf + a).0.len() <= MAX_BUFFERED ==> feed_result(feed_result(buf, a).0, b).0
            == feed_result(buf, a + b).0,
{
    lemma_scan_append(buf + a, b);
    assert(buf + a + b =~= buf + (a + b));
    let r = scan(buf + a).0;
    if r.len() > MAX_BUFFERED {
        lemma_long_leftover_has_no_sync(buf + a);
        let k = r.len() - PACKET_SIZE;
        let p = r.take(k);
        let q = r.skip(k);
        assert(r + b =~= p + (q + b));
        assert forall|j: int| 0 <= j < p.len() implies !sync_at(p + (q + b), j) by {
            assert(sync_at(p + (q + b), j) == sync_at(r, j));
        }
        lemma_frames_after_noise(p, q + b);
    }
}

/// Bytes that hold no sync word are discarded when a frame follows them.
pub proof fn lemma_scan_skips_noise(g: Seq<u8>, t: Seq<u8>)
    requires
        forall|j: int| 0 <= j ==> !sync_at(g, j),
        sync_at(t, 0),
    ensures
        scan(g + t) == scan(t),
{
    let s = g + t;
    assert forall|j: int| 0 <= j < g.len() implies !sync_at(s, j) by {
        if j + 1 < g.len() {
            assert(sync_at(s, j) == sync_at(g, j));
        }
    }
    assert(sync_at(s, g.len() as int));
    lemma_find_sync_first(s, g.len() as int);
    assert(s.skip(g.len() as int) =~= t);
    assert(t.skip(0) =~= t);
}

/// Whether `f` is 95 consecutive bytes of `s`.
pub open spec fn is_window(s: Seq<u8>, f: Seq<u8>) -> bool {
    exists|o: int|
        0 <= o && o + PACKET_SIZE <= s.len() && f == #[trigger] s.subrange(o, o + PACKET_SIZE)
}

/// A window of a suffix is a window of the whole.
proof fn lemma_window_of_suffix(s: Seq<u8>, q: int, f: Seq<u8>)
    requires
        0 <= q <= s.len(),
        is_window(s.skip(q), f),
    ensures
        is_window(s, f),
{
    let u = s.skip(q);
    let o = choose|o: int|
        0 <= o && o + PACKET_SIZE <= u.len() && f == #[trigger] u.subrange(o, o + PACKET_SIZE);
    assert(u.subrange(o, o + PACKET_SIZE) =~= s.subrange(q + o, q + o + PACKET_SIZE));
}

/// Every frame the framer accepts decodes as a packet and is 95 consecutive
/// bytes of its input, and what it leaves unconsumed is a suffix of its input.
pub proof fn lemma_scan_frames_are_packets(s: Seq<u8>)
    ensures
        forall|i: int| 0 <= i < scan(s).1.len() ==> packet_valid(#[trigger] scan(s).1[i]),
        forall|i: int| 0 <= i < scan(s).1.len() ==> is_window(s, #[trigger] scan(s).1[i]),
        exists|o: int| 0 <= o <= s.len() && scan(s).0 == #[trigger] s.skip(o),
    decreases s.len(),
{
    lemma_find_sync_from(s, 0);
    match find_sync_from(s, 0) {
        None => {
            assert(s.skip(0) =~= s);
        },
        Some(p) => {
            let t = s.skip(p);
            if t.len() < PACKET_SIZE {
            } else {
                let q = if t[PACKET_SIZE - 1] == SYNC_END {
                    p + PACKET_SIZE
                } else {
                    p + 2
                };
                let u = s.skip(q);
                assert(u =~= t.skip(q - p));
                lemma_scan_frames_are_packets(u);
                let rest = scan(u);
                let o0 = choose|o: int| 0 <= o <= u.len() && rest.0 == #[trigger] u.skip(o);
                assert(rest.0 =~= s.skip(q + o0));
                assert forall|i: int| 0 <= i < rest.1.len() implies is_window(
                    s,
                    #[trigger] rest.1[i],
                ) by {
                    lemma_window_of_suffix(s, q, rest.1[i]);
                }
                if t[PACKET_SIZE - 1] == SYNC_END {
                    let f = t.take(PACKET_SIZE as int);
                    assert(f =~= s.subrange(p, q));
                    if packet_valid(f) {
                        let fs = seq![f] + rest.1;
                        assert forall|i: int| 0 <= i < fs.len() implies is_window(
                            s,
                            #[trigger] fs[i],
                        ) && packet_valid(fs[i]) by {
                            if i > 0 {
                                assert(fs[i] == rest.1[i - 1]);
                            }
                        }
                    }
                }
            }
        },
    }
}

/// Whether the frames `fs` lie in `s` at the offsets `os`, each ending at or
/// before the next one starts, and the bytes from `q` on are those left
/// unconsumed (`rest`), after the last frame.
pub open spec fn frames_laid_out(
    s: Seq<u8>,
    fs: Seq<Seq<u8>>,
    rest: Seq<u8>,
    os: Seq<int>,
    q: int,
) -> bool {
    &&& os.len() == fs.len()
    &&& forall|i: int|
        0 <= i < os.len() ==> 0 <= #[trigger] os[i] && os[i] + PACKET_SIZE <= q && fs[i]
            == s.subrange(os[i], os[i] + PACKET_SIZE)
    &&& forall|i: int, j: int|
        0 <= i < j < os.len() ==> #[trigger] os[i] + PACKET_SIZE <= #[trigger] os[j]
    &&& 0 <= q <= s.len()
    &&& rest == s.skip(q)
}

/// The frames the framer accepts are windows of its input taken in input
/// order without overlap, and what it leaves unconsumed follows the last of
/// them; the result gives their offsets and where the unconsumed bytes start.
pub proof fn lemma_scan_frames_in_order(s: Seq<u8>) -> (r: (Seq<int>, int))
    ensures
        frames_laid_out(s, scan(s).1, scan(s).0, r.0, r.1),
    decreases s.len(),
{
    lemma_find_sync_from(s, 0);
    match find_sync_from(s, 0) {
        None => {
            assert(s.skip(0) =~= s);
            (Seq::empty(), 0)
        },
        Some(p) => {
            let t = s.skip(p);
            if t.len() < PACKET_SIZE {
                (Seq::empty(), p)
            } else {
                let step = if t[PACKET_SIZE - 1] == SYNC_END {
                    PACKET_SIZE as int
                } else {
                    2
                };
                let b = p + step;
                let u = s.skip(b);
                assert(u =~= t.skip(step));
                let inner = lemma_scan_frames_in_order(u);
                let shifted = inner.0.map_values(|o: int| o + b);
                let q = inner.1 + b;
                assert(scan(u).0 =~= s.skip(q));
                assert forall|i: int| 0 <= i < shifted.len() implies scan(u).1[i] == s.subrange(
                    #[trigger] shifted[i],
                    shifted[i] + PACKET_SIZE,
                ) by {
                    let o = inner.0[i];
                    assert(u.subrange(o, o + PACKET_SIZE) =~= s.subrange(o + b, o + b
                        + PACKET_SIZE));
                }
                assert(frames_laid_out(s, scan(u).1, scan(u).0, shifted, q)) by {
                    assert forall|i: int, j: int|
                        0 <= i < j < shifted.len() implies #[trigger] shifted[i] + PACKET_SIZE
                        <= #[trigger] shifted[j] by {
                        assert(inner.0[i] + PACKET_SIZE <= inner.0[j]);
                    }
                }
                if step == PACKET_SIZE && packet_valid(t.take(PACKET_SIZE as int)) {
                    let f = t.take(PACKET_SIZE as int);
                    assert(f =~= s.subrange(p, p + PACKET_SIZE));
                    let os = seq![p] + shifted;
                    let fs = seq![f] + scan(u).1;
                    assert forall|i: int|
                        0 <= i < os.len() implies 0 <= #[trigger] os[i] && os[i] + PACKET_SIZE
                        <= q && fs[i] == s.subrange(os[i], os[i] + PACKET_SIZE) by {
                        if i > 0 {
                            assert(os[i] == shifted[i - 1]);
                            assert(fs[i] == scan(u).1[i - 1]);
                        }
                    }
                    assert forall|i: int, j: int|
                        0 <= i < j < os.len() implies #[trigger] os[i] + PACKET_SIZE
                        <= #[trigger] os[j] by {
                        assert(os[j] == shifted[j - 1]);
                        if i > 0 {
                            assert(os[i] == shifted[i - 1]);
                        }
                    }
                    (os, q)
                } else {
                    (shifted, q)
                }
            }
        },
    }
}

/// The first sync word at or after `from`.
fn find_sync_in(buf: &Vec<u8>, from: usize) -> (r: Option<usize>)
    requires
        from <= buf@.len(),
    ensures
        match r {
            Some(k) => find_sync_from(buf@, from as int) == Some(k as int),
            None => find_sync_from(buf@, from as int) is None,
        },
{
    let n = buf.len();
    let mut i = from;
    while n > 0 && i < n - 1
        invariant
            from <= i <= n,
            n == buf@.len(),
            find_sync_from(buf@, from as int) == find_sync_from(buf@, i as int),
        decreases n - i,
    {
        if buf[i] == 0xFE && buf[i + 1] == 0xCA {
            return Some(i);
        }
        i = i + 1;
    }
    None
}

/// The packet-sized frame that starts at `k`.
fn frame_at(buf: &Vec<u8>, k: usize) -> (f: [u8; PACKET_SIZE])
    requires
        k + PACKET_SIZE <= buf@.len(),
    ensures
        f@ == buf@.subrange(k as int, k + PACKET_SIZE),
{
    let n = buf.len();
    let mut f = [0u8; PACKET_SIZE];
    let mut j: usize = 0;
    while j < PACKET_SIZE
        invariant
            j <= PACKET_SIZE,
            n == buf@.len(),
            k + PACKET_SIZE <= buf@.len(),
            f@.len() == PACKET_SIZE,
            forall|m: int| 0 <= m < j ==> f@[m] == buf@[k + m],
        decreases PACKET_SIZE - j,
    {
        f[j] = buf[k + j];
        j = j + 1;
    }
    assert(f@ =~= buf@.subrange(k as int, k + PACKET_SIZE));
    f
}

/// The bytes of `buf` from `from` on.
fn copy_tail(buf: &Vec<u8>, from: usize) -> (r: Vec<u8>)
    requires
        from <= buf@.len(),
    ensures
        r@ == buf@.skip(from as int),
{
    let n = buf.len();
    let mut r: Vec<u8> = Vec::with_capacity(n - from);
    let mut i = from;
    while i < n
        invariant
            from <= i <= n,
            n == buf@.len(),
            r@ == buf@.subrange(from as int, i as int),
        decreases n - i,
    {
        r.push(buf[i]);
        i = i + 1;
        assert(r@ =~= buf@.subrange(from as int, i as int));
    }
    assert(r@ =~= buf@.skip(from as int));
    r
}

/// Recovers telemetry packets from the serial byte stream, resynchronising on
/// the sync word after noise or lost bytes.
pub struct StreamParser {
    buf: Vec<u8>,
}

impl View for StreamParser {
    type V = Seq<u8>;

    /// The bytes received and not yet consumed.
    closed spec fn view(&self) -> Seq<u8> {
        self.buf@
    }
}

impl StreamParser {
    /// A framer holding no bytes.
    pub fn new() -> (r: Self)
        ensures
            r@ == Seq::<u8>::empty(),
    {
        Self { buf: Vec::with_capacity(256) }
    }

    /// Appends `data` to the buffered bytes and returns the packets that can
    /// now be framed, in stream order (see `scan` and `retained`).
    pub fn feed(&mut self, data: &[u8]) -> (packets: Vec<Telemetry>)
        requires
            old(self)@.len() + data@.len() <= usize::MAX,
        ensures
            final(self)@ == feed_result(old(self)@, data@).0,
            packets@.len() == feed_result(old(self)@, data@).1.len(),
            forall|i: int|
                0 <= i < packets@.len() ==> #[trigger] packets@[i].decodes(
                    feed_result(old(self)@, data@).1[i],
                ),
            final(self)@.len() <= MAX_BUFFERED,
    {
        self.buf.extend_from_slice(data);
        let ghost whole = self.buf@;
        assert(whole =~= old(self)@ + data@);
        let n = self.buf.len();
        let mut packets: Vec<Telemetry> = Vec::new();
        let ghost mut done: Seq<Seq<u8>> = Seq::empty();
        let mut start: usize = 0;
        assert(whole.skip(0) =~= whole);
        loop
            invariant_except_break
                self.buf@ == whole,
                n == whole.len(),
                start <= n,
                scan(whole).0 == scan(whole.skip(start as int)).0,
                scan(whole).1 =~= done + scan(whole.skip(start as int)).1,
                packets@.len() == done.len(),
                forall|i: int| 0 <= i < done.len() ==> #[trigger] packets@[i].decodes(done[i]),
            ensures
                self.buf@ == whole,
                n == whole.len(),
                start <= n,
                scan(whole).0 == whole.skip(start as int),
                scan(whole).1 =~= done,
                packets@.len() == done.len(),
                forall|i: int| 0 <= i < done.len() ==> #[trigger] packets@[i].decodes(done[i]),
            decreases n - start,
        {
            let ghost ws = whole.skip(start as int);
            proof {
                lemma_find_sync_shift(whole, start as int, 0);
            }
            match find_sync_in(&self.buf, start) {
                None => {
                    assert(scan(ws) == (ws, Seq::<Seq<u8>>::empty()));
                    assert(done + Seq::<Seq<u8>>::empty() =~= done);
                    break;
                },
                Some(k) => {
                    proof {
                        lemma_find_sync_from(whole, start as int);
                    }
                    let ghost t = ws.skip(k - start);
                    assert(t =~= whole.skip(k as int));
                    if n - k < PACKET_SIZE {
                        assert(scan(ws) == (t, Seq::<Seq<u8>>::empty()));
                        assert(done + Seq::<Seq<u8>>::empty() =~= done);
                        start = k;
                        break;
                    }
                    assert(t.skip(PACKET_SIZE as int) =~= whole.skip(k + PACKET_SIZE));
                    assert(t.skip(2) =~= whole.skip(k + 2));
                    if self.buf[k + PACKET_SIZE - 1] == SYNC_END {
                        let frame = frame_at(&self.buf, k);
                        assert(frame@ =~= t.take(PACKET_SIZE as int));
                        let ghost rest = scan(whole.skip(k + PACKET_SIZE));
                        match parse_packet(&frame) {
                            Some(p) => {
                                packets.push(p);
                                proof {
                                    assert(seq![frame@] + rest.1 == scan(ws).1);
                                    assert(done + scan(ws).1 =~= done.push(frame@) + rest.1);
                                    done = done.push(frame@);
                                }
                            },
                            None => {},
                        }
                        start = k + PACKET_SIZE;
                    } else {
                        start = k + 2;
                    }
                },
            }
        }
        let kept = if n - start > MAX_BUFFERED {
            assert(whole.skip(start as int).skip((n - start) - PACKET_SIZE) =~= whole.skip(
                n - PACKET_SIZE,
            ));
            copy_tail(&self.buf, n - PACKET_SIZE)
        } else {
            copy_tail(&self.buf, start)
        };
        self.buf = kept;
        packets
    }
}

} // verus!
