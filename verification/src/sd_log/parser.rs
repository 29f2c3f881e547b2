//! Decoding of SD log records and of whole log files.

use vstd::prelude::*;

use crate::bytes::{le_i32, le_u16, le_u32, read_u16_le, read_u32_le, sync_at, to_i32};
use crate::sd_log::record::{
    sd_record_valid, SdRecord, SD_RECORD_SIZE, SD_SYNC_END, SD_SYNC_WORD,
};
use crate::telemetry::packet::{Command, FlightState, RelayState};

verus! {

/// A cursor over a record's bytes that reads little-endian fields in order.
struct RecordReader<'a> {
    buf: &'a [u8],
    pos: usize,
}

impl<'a> RecordReader<'a> {
    fn new(buf: &'a [u8]) -> (r: Self)
        ensures
            r.buf@ == buf@,
            r.pos == 0,
    {
        Self { buf, pos: 0 }
    }

    fn u8(&mut self) -> (v: u8)
        requires
            old(self).pos + 1 <= old(self).buf@.len(),
        ensures
            v == old(self).buf@[old(self).pos as int],
            final(self).pos == old(self).pos + 1,
            final(self).buf@ == old(self).buf@,
    {
        let v = self.buf[self.pos];
        self.pos = self.pos + 1;
        v
    }

    fn u16_le(&mut self) -> (v: u16)
        requires
            old(self).pos + 2 <= old(self).buf@.len(),
        ensures
            v == le_u16(old(self).buf@, old(self).pos as int),
            final(self).pos == old(self).pos + 2,
            final(self).buf@ == old(self).buf@,
    {
        let v = read_u16_le(self.buf, self.pos);
        assert(self.buf@.len() == self.buf.len());
        self.pos = self.pos + 2;
        v
    }

    fn u32_le(&mut self) -> (v: u32)
        requires
            old(self).pos + 4 <= old(self).buf@.len(),
        ensures
            v == le_u32(old(self).buf@, old(self).pos as int),
            final(self).pos == old(self).pos + 4,
            final(self).buf@ == old(self).buf@,
    {
        let v = read_u32_le(self.buf, self.pos);
        assert(self.buf@.len() == self.buf.len());
        self.pos = self.pos + 4;
        v
    }

    fn i32_le(&mut self) -> (v: i32)
        requires
            old(self).pos + 4 <= old(self).buf@.len(),
        ensures
            v == le_i32(old(self).buf@, old(self).pos as int),
            final(self).pos == old(self).pos + 4,
            final(self).buf@ == old(self).buf@,
    {
        let v = to_i32(read_u32_le(self.buf, self.pos));
        assert(self.buf@.len() == self.buf.len());
        self.pos = self.pos + 4;
        v
    }
}

/// Decodes one record. Returns `None` exactly when the bytes do not start with
/// the sync word, do not end with the end marker, or carry an unknown
/// flight-state code.
pub fn parse_sd_record(buf: &[u8; SD_RECORD_SIZE]) -> (r: Option<SdRecord>)
    ensures
        r is Some <==> sd_record_valid(buf@),
        r matches Some(rec) ==> rec.decodes(buf@),
{
    let mut r = RecordReader::new(buf.as_slice());

    let sync = r.u16_le();
    if sync != SD_SYNC_WORD {
        return None;
    }
    if buf[SD_RECORD_SIZE - 1] != SD_SYNC_END {
        return None;
    }

    let tick = r.u32_le();
    let ax = r.u32_le();
    let ay = r.u32_le();
    let az = r.u32_le();
    let gx = r.u32_le();
    let gy = r.u32_le();
    let gz = r.u32_le();
    let mx = r.u32_le();
    let my = r.u32_le();
    let mz = r.u32_le();
    let pressure_bits = r.u32_le();
    let temperature_bits = r.u32_le();
    let latitude_e7 = r.i32_le();
    let longitude_e7 = r.i32_le();
    let gps_altitude_bits = r.u32_le();
    let unix_time = r.u32_le();
    let milliseconds = r.u16_le();
    let satellites = r.u8();
    let flags = r.u32_le();
    let battery_bits = r.u32_le();
    let state = match FlightState::from_u8(r.u8()) {
        Some(s) => s,
        None => {
            return None;
        },
    };
    let relay = RelayState::from_u8(r.u8());
    let last_command = match Command::from_u8(r.u8()) {
        Some(c) => c,
        None => Command::NoCommand,
    };

    Some(
        SdRecord {
            raw: *buf,
            tick,
            accel_bits: [ax, ay, az],
            gyro_bits: [gx, gy, gz],
            mag_bits: [mx, my, mz],
            pressure_bits,
            temperature_bits,
            latitude_e7,
            longitude_e7,
            gps_altitude_bits,
            unix_time,
            milliseconds,
            satellites,
            flags,
            battery_bits,
            state,
            relay,
            last_command,
        },
    )
}

/// Where the search for the next record resumes after a failed read at the
/// start of `s`: the first sync word at or after `k`, or the last byte of `s`
/// when there is none.
pub open spec fn next_sync_from(s: Seq<u8>, k: int) -> int
    decreases s.len() - k,
{
    if k < 0 || k + 1 >= s.len() {
        k
    } else if sync_at(s, k) {
        k
    } else {
        next_sync_from(s, k + 1)
    }
}

/// The record images that reading the log `s` accepts, in file order.
///
/// A record is read where one is expected; when those bytes do not decode,
/// the reader skips at least one byte, to the next sync word.
pub open spec fn sd_scan(s: Seq<u8>) -> Seq<Seq<u8>>
    decreases s.len(),
{
    if s.len() < SD_RECORD_SIZE {
        Seq::empty()
    } else if sd_record_valid(s.take(SD_RECORD_SIZE as int)) {
        seq![s.take(SD_RECORD_SIZE as int)] + sd_scan(s.skip(SD_RECORD_SIZE as int))
    } else {
        proof {
            lemma_next_sync_from(s, 1);
        }
        sd_scan(s.skip(next_sync_from(s, 1)))
    }
}

/// The resume point lies at or after `k`, before the end of `s`, and no sync
/// word lies between `k` and it.
pub proof fn lemma_next_sync_from(s: Seq<u8>, k: int)
    requires
        0 <= k < s.len(),
    ensures
        k <= next_sync_from(s, k) < s.len(),
        forall|j: int| k <= j < next_sync_from(s, k) ==> !sync_at(s, j),
        sync_at(s, next_sync_from(s, k)) || next_sync_from(s, k) == s.len() - 1,
    decreases s.len() - k,
{
    if k + 1 < s.len() && !sync_at(s, k) {
        lemma_next_sync_from(s, k + 1);
    }
}

/// The record image that starts at `k`.
fn record_at(data: &[u8], k: usize) -> (f: [u8; SD_RECORD_SIZE])
    requires
        k + SD_RECORD_SIZE <= data@.len(),
    ensures
        f@ == data@.subrange(k as int, k + SD_RECORD_SIZE),
{
    let n = data.len();
    let mut f = [0u8; SD_RECORD_SIZE];
    let mut j: usize = 0;
    while j < SD_RECORD_SIZE
        invariant
            j <= SD_RECORD_SIZE,
            n == data@.len(),
            k + SD_RECORD_SIZE <= data@.len(),
            f@.len() == SD_RECORD_SIZE,
            forall|m: int| 0 <= m < j ==> f@[m] == data@[k + m],
        decreases SD_RECORD_SIZE - j,
    {
        f[j] = data[k + j];
        j = j + 1;
    }
    assert(f@ =~= data@.subrange(k as int, k + SD_RECORD_SIZE));
    f
}

/// Reads every record of an SD log image, skipping bytes that do not start a
/// valid record until the next sync word (see `sd_scan`).
pub fn parse_sd_file(data: &[u8]) -> (records: Vec<SdRecord>)
    ensures
        records@.len() == sd_scan(data@).len(),
        forall|i: int|
            0 <= i < records@.len() ==> #[trigger] records@[i].decodes(sd_scan(data@)[i]),
{
    let n = data.len();
    let mut records: Vec<SdRecord> = Vec::new();
    let ghost mut done: Seq<Seq<u8>> = Seq::empty();
    let mut offset: usize = 0;
    assert(data@.skip(0) =~= data@);
    while offset <= n && n - offset >= SD_RECORD_SIZE
        invariant
            n == data@.len(),
            offset <= n,
            sd_scan(data@) =~= done + sd_scan(data@.skip(offset as int)),
            records@.len() == done.len(),
            forall|i: int| 0 <= i < done.len() ==> #[trigger] records@[i].decodes(done[i]),
        decreases n - offset,
    {
        let ghost ws = data@.skip(offset as int);
        let chunk = record_at(data, offset);
        assert(chunk@ =~= ws.take(SD_RECORD_SIZE as int));
        assert(ws.skip(SD_RECORD_SIZE as int) =~= data@.skip(offset + SD_RECORD_SIZE));
        let sync = read_u16_le(chunk.as_slice(), 0);
        let mut accepted = false;
        if sync == SD_SYNC_WORD && chunk[SD_RECORD_SIZE - 1] == SD_SYNC_END {
            match parse_sd_record(&chunk) {
                Some(record) => {
                    records.push(record);
                    proof {
                        assert(done + sd_scan(ws) =~= done.push(chunk@) + sd_scan(
                            ws.skip(SD_RECORD_SIZE as int),
                        ));
                        done = done.push(chunk@);
                    }
                    offset = offset + SD_RECORD_SIZE;
                    accepted = true;
                },
                None => {},
            }
        }
        if !accepted {
            proof {
                lemma_next_sync_from(ws, 1);
            }
            let start = offset;
            offset = offset + 1;
            while offset + 1 < n && !(data[offset] == 0xFE && data[offset + 1] == 0xCA)
                invariant
                    n == data@.len(),
                    start + SD_RECORD_SIZE <= n,
                    start + 1 <= offset < n,
                    ws == data@.skip(start as int),
                    next_sync_from(ws, 1) == next_sync_from(ws, offset - start),
                decreases n - offset,
            {
                offset = offset + 1;
            }
            assert(ws.skip(offset - start) =~= data@.skip(offset as int));
        }
    }
    assert(done + Seq::<Seq<u8>>::empty() =~= done);
    records
}

/// A valid record at the front of the data is read, and reading resumes
/// right after it.
pub proof fn lemma_sd_scan_record_first(r: Seq<u8>, rest: Seq<u8>)
    requires
        sd_record_valid(r),
    ensures
        sd_scan(r + rest) == seq![r] + sd_scan(rest),
{
    let s = r + rest;
    assert(s.take(SD_RECORD_SIZE as int) =~= r);
    assert(s.skip(SD_RECORD_SIZE as int) =~= rest);
}

/// A log made of valid records written back to back reads back as exactly
/// those records, in order.
pub proof fn lemma_sd_scan_records(rs: Seq<Seq<u8>>)
    requires
        forall|i: int| 0 <= i < rs.len() ==> sd_record_valid(#[trigger] rs[i]),
    ensures
        sd_scan(rs.flatten()) == rs,
    decreases rs.len(),
{
    if rs.len() == 0 {
        assert(sd_scan(rs.flatten()) =~= rs);
    } else {
        let tail = rs.drop_first();
        assert forall|i: int| 0 <= i < tail.len() implies sd_record_valid(#[trigger] tail[i]) by {
            assert(tail[i] == rs[i + 1]);
        }
        lemma_sd_scan_records(tail);
        lemma_sd_scan_record_first(rs[0], tail.flatten());
        assert(seq![rs[0]] + tail =~= rs);
    }
}

/// The resume point is the first sync word at or after `k`, or the last byte
/// when none follows.
proof fn lemma_next_sync_is(s: Seq<u8>, k: int, p: int)
    requires
        0 <= k <= p < s.len(),
        forall|j: int| k <= j < p ==> !sync_at(s, j),
        sync_at(s, p) || p == s.len() - 1,
    ensures
        next_sync_from(s, k) == p,
{
    lemma_next_sync_from(s, k);
    let q = next_sync_from(s, k);
    if q < p {
        assert(!sync_at(s, q));
    } else if q > p {
        assert(!sync_at(s, p));
    }
}

/// Bytes in which no sync word starts change nothing when they come before a
/// log.
pub proof fn lemma_sd_scan_skips_noise(g: Seq<u8>, t: Seq<u8>)
    requires
        forall|j: int| 0 <= j < g.len() ==> !sync_at(g + t, j),
    ensures
        sd_scan(g + t) == sd_scan(t),
{
    let s = g + t;
    let n = g.len() as int;
    if n == 0 {
        assert(s =~= t);
    } else if s.len() >= SD_RECORD_SIZE {
        assert(!sync_at(s, 0));
        assert(!sd_record_valid(s.take(SD_RECORD_SIZE as int)));
        lemma_next_sync_from(s, 1);
        let k = next_sync_from(s, 1);
        assert(sd_scan(s) == sd_scan(s.skip(k)));
        if t.len() == 0 {
            assert(!sync_at(s, k));
            assert(s.skip(k).len() == 1);
            assert(sd_scan(s.skip(k)) =~= Seq::<Seq<u8>>::empty());
        } else {
            if k < n {
                assert(!sync_at(s, k));
            }
            let m = k - n;
            assert(s.skip(k) =~= t.skip(m));
            if m > 0 && t.len() >= SD_RECORD_SIZE {
                assert forall|j: int| 1 <= j < m implies !sync_at(t, j) by {
                    assert(sync_at(s, n + j) == sync_at(t, j));
                }
                assert(sync_at(s, k) == sync_at(t, m));
                assert(!sync_at(t, 0)) by {
                    assert(sync_at(s, n) == sync_at(t, 0));
                }
                assert(!sd_record_valid(t.take(SD_RECORD_SIZE as int)));
                lemma_next_sync_is(t, 1, m);
                assert(sd_scan(t) == sd_scan(t.skip(m)));
            } else if m == 0 {
                assert(t.skip(0) =~= t);
            }
            assert(sd_scan(s.skip(k)) == sd_scan(t));
        }
    }
}

/// Bytes none of which is 0xFE, the first byte of the sync word, change
/// nothing when they come before a log.
pub proof fn lemma_sd_scan_skips_bytes_without_sync_start(g: Seq<u8>, t: Seq<u8>)
    requires
        forall|j: int| 0 <= j < g.len() ==> g[j] != 0xFEu8,
    ensures
        sd_scan(g + t) == sd_scan(t),
{
    assert forall|j: int| 0 <= j < g.len() implies !sync_at(g + t, j) by {
        assert((g + t)[j] == g[j]);
    }
    lemma_sd_scan_skips_noise(g, t);
}

/// A log of `n` bytes reads back as at most `n / 81` records.
pub proof fn lemma_sd_scan_count(s: Seq<u8>)
    ensures
        sd_scan(s).len() <= s.len() as int / (SD_RECORD_SIZE as int),
    decreases s.len(),
{
    if s.len() >= SD_RECORD_SIZE {
        if sd_record_valid(s.take(SD_RECORD_SIZE as int)) {
            lemma_sd_scan_count(s.skip(SD_RECORD_SIZE as int));
        } else {
            lemma_next_sync_from(s, 1);
            let k = next_sync_from(s, 1);
            lemma_sd_scan_count(s.skip(k));
            assert((s.len() - k) / (SD_RECORD_SIZE as int) <= s.len() as int / (SD_RECORD_SIZE as int))
                by (nonlinear_arith)
                requires
                    1 <= k <= s.len(),
            ;
        }
    }
}

/// Whether `f` is 81 consecutive bytes of `s`.
pub open spec fn is_record_window(s: Seq<u8>, f: Seq<u8>) -> bool {
    exists|o: int|
        0 <= o && o + SD_RECORD_SIZE <= s.len() && f == #[trigger] s.subrange(
            o,
            o + SD_RECORD_SIZE,
        )
}

/// Every record the reader accepts decodes, and is 81 consecutive bytes of
/// the log.
pub proof fn lemma_sd_scan_records_are_windows(s: Seq<u8>)
    ensures
        forall|i: int| 0 <= i < sd_scan(s).len() ==> sd_record_valid(#[trigger] sd_scan(s)[i]),
        forall|i: int| 0 <= i < sd_scan(s).len() ==> is_record_window(s, #[trigger] sd_scan(s)[i]),
    decreases s.len(),
{
    if s.len() >= SD_RECORD_SIZE {
        let valid = sd_record_valid(s.take(SD_RECORD_SIZE as int));
        let q = if valid {
            SD_RECORD_SIZE as int
        } else {
            lemma_next_sync_from(s, 1);
            next_sync_from(s, 1)
        };
        let u = s.skip(q);
        lemma_sd_scan_records_are_windows(u);
        let head: Seq<Seq<u8>> = if valid {
            seq![s.take(SD_RECORD_SIZE as int)]
        } else {
            Seq::empty()
        };
        let out = head + sd_scan(u);
        assert(sd_scan(s) == out);
        assert forall|i: int| 0 <= i < out.len() implies sd_record_valid(#[trigger] out[i])
            && is_record_window(s, out[i]) by {
            if i < head.len() {
                assert(out[i] =~= s.subrange(0, SD_RECORD_SIZE as int));
            } else {
                let j = i - head.len();
                assert(out[i] == sd_scan(u)[j]);
                assert(is_record_window(u, sd_scan(u)[j]));
                let o = choose|o: int|
                    0 <= o && o + SD_RECORD_SIZE <= u.len() && sd_scan(u)[j] == #[trigger] u.subrange(
                        o,
                        o + SD_RECORD_SIZE,
                    );
                assert(u.subrange(o, o + SD_RECORD_SIZE) =~= s.subrange(
                    q + o,
                    q + o + SD_RECORD_SIZE,
                ));
            }
        }
    }
}

} // verus!
