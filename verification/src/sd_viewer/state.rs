//! Flight-log analysis for the log viewer: the flight-state timeline, relay
//! and command events, and gaps in the record stream. Times are kept in
//! flight-computer ticks (milliseconds).

use vstd::prelude::*;
use vstd::relations::{sorted_by, total_ordering};

use crate::sd_log::record::SdRecord;
use crate::telemetry::packet::{flight_state_of, Command, FlightState};
use crate::ui::theme::{rgb, Rgb};

verus! {

/// Where a loaded log came from.
#[derive(Debug, Clone, Copy, PartialEq, Eq, Structural)]
pub enum DataSource {
    SdLog,
    FlashLog,
}

impl DataSource {
    /// Whether logs from this source carry every field (only SD logs do).
    pub fn has_full_data(self) -> (r: bool)
        ensures
            r == (self == DataSource::SdLog),
    {
        match self {
            DataSource::SdLog => true,
            DataSource::FlashLog => false,
        }
    }

    /// The short name shown in the status line.
    pub fn label(self) -> (r: &'static str)
        ensures
            r@ == (if self == DataSource::SdLog {
                "SD"@
            } else {
                "FLASH"@
            }),
    {
        match self {
            DataSource::SdLog => "SD",
            DataSource::FlashLog => "FLASH",
        }
    }
}

/// The name of a flight state on the viewer's timeline.
pub open spec fn timeline_label_view(s: FlightState) -> Seq<char> {
    match s {
        FlightState::Idle => "IDLE"@,
        FlightState::Calibration => "CALIBRATION"@,
        FlightState::Prelaunch => "PRELAUNCH"@,
        FlightState::Burn => "BOOST"@,
        FlightState::PassiveBurnout => "COAST"@,
        FlightState::ActiveBurnout => "ACTIVE CONTROL"@,
        FlightState::Apogee => "APOGEE"@,
        FlightState::Parachute => "MAIN PARACHUTE"@,
        FlightState::Landed => "LANDED"@,
        FlightState::GroundAbort => "GROUND ABORT"@,
        FlightState::DescentAbort => "DESCENT ABORT"@,
    }
}

/// The colour of a flight state on the viewer's timeline.
pub open spec fn timeline_color_spec(s: FlightState) -> Rgb {
    match s {
        FlightState::Idle => rgb(120, 120, 120),
        FlightState::Calibration => rgb(180, 180, 100),
        FlightState::Prelaunch => rgb(100, 180, 220),
        FlightState::Burn => rgb(255, 140, 0),
        FlightState::PassiveBurnout => rgb(255, 200, 80),
        FlightState::ActiveBurnout => rgb(230, 180, 60),
        FlightState::Apogee => rgb(0, 200, 100),
        FlightState::Parachute => rgb(0, 180, 255),
        FlightState::Landed => rgb(80, 200, 80),
        FlightState::GroundAbort => rgb(255, 50, 50),
        FlightState::DescentAbort => rgb(255, 80, 80),
    }
}

/// How the log viewer presents a flight state.
pub trait FlightStateExt {
    fn label(&self) -> &'static str;

    fn timeline_color(&self) -> Rgb;
}

impl FlightStateExt for FlightState {
    fn label(&self) -> (r: &'static str)
        ensures
            r@ == timeline_label_view(*self),
    {
        match self {
            FlightState::Idle => "IDLE",
            FlightState::Calibration => "CALIBRATION",
            FlightState::Prelaunch => "PRELAUNCH",
            FlightState::Burn => "BOOST",
            FlightState::PassiveBurnout => "COAST",
            FlightState::ActiveBurnout => "ACTIVE CONTROL",
            FlightState::Apogee => "APOGEE",
            FlightState::Parachute => "MAIN PARACHUTE",
            FlightState::Landed => "LANDED",
            FlightState::GroundAbort => "GROUND ABORT",
            FlightState::DescentAbort => "DESCENT ABORT",
        }
    }

    fn timeline_color(&self) -> (c: Rgb)
        ensures
            c == timeline_color_spec(*self),
    {
        match self {
            FlightState::Idle => Rgb { r: 120, g: 120, b: 120 },
            FlightState::Calibration => Rgb { r: 180, g: 180, b: 100 },
            FlightState::Prelaunch => Rgb { r: 100, g: 180, b: 220 },
            FlightState::Burn => Rgb { r: 255, g: 140, b: 0 },
            FlightState::PassiveBurnout => Rgb { r: 255, g: 200, b: 80 },
            FlightState::ActiveBurnout => Rgb { r: 230, g: 180, b: 60 },
            FlightState::Apogee => Rgb { r: 0, g: 200, b: 100 },
            FlightState::Parachute => Rgb { r: 0, g: 180, b: 255 },
            FlightState::Landed => Rgb { r: 80, g: 200, b: 80 },
            FlightState::GroundAbort => Rgb { r: 255, g: 50, b: 50 },
            FlightState::DescentAbort => Rgb { r: 255, g: 80, b: 80 },
        }
    }
}

/// A stretch of the log during which the flight state did not change.
#[derive(Debug, Clone, Copy, PartialEq, Eq, Structural)]
pub struct StateSegment {
    pub start_tick: u32,
    pub end_tick: u32,
    pub state: FlightState,
}

impl StateSegment {
    /// The segment's timeline label.
    pub fn label(&self) -> (r: &'static str)
        ensures
            r@ == timeline_label_view(self.state),
    {
        self.state.label()
    }

    /// The segment's timeline colour.
    pub fn color(&self) -> (c: Rgb)
        ensures
            c == timeline_color_spec(self.state),
    {
        self.state.timeline_color()
    }
}

/// The indices `i` in `1..n` at which the flight state differs from that of
/// record `i - 1`, in increasing order.
pub open spec fn state_changes(recs: Seq<SdRecord>, n: int) -> Seq<int>
    decreases n,
{
    if n <= 1 {
        Seq::empty()
    } else {
        let p = state_changes(recs, n - 1);
        if recs[n - 1].state != recs[n - 2].state {
            p.push(n - 1)
        } else {
            p
        }
    }
}

/// The index of the first record of each state segment among the first `n`
/// records.
pub open spec fn starts_upto(recs: Seq<SdRecord>, n: int) -> Seq<int> {
    seq![0int] + state_changes(recs, n)
}

/// The index of the first record of each state segment.
pub open spec fn segment_starts(recs: Seq<SdRecord>) -> Seq<int> {
    starts_upto(recs, recs.len() as int)
}

/// Whether `seg` is segment `j` of the log `recs`: it starts at the tick of
/// its first record, ends at the tick where the next segment starts (the last
/// segment at the last record's tick), and has its records' state.
pub open spec fn is_segment(recs: Seq<SdRecord>, j: int, seg: StateSegment) -> bool {
    let starts = segment_starts(recs);
    &&& seg.start_tick == recs[starts[j]].tick
    &&& seg.end_tick == (if j + 1 < starts.len() {
        recs[starts[j + 1]].tick
    } else {
        recs[recs.len() - 1].tick
    })
    &&& seg.state == recs[starts[j]].state
}

/// Every state change lies between 1 and `n`, in increasing order.
proof fn lemma_state_changes_range(recs: Seq<SdRecord>, n: int)
    requires
        n <= recs.len(),
    ensures
        forall|k: int|
            0 <= k < state_changes(recs, n).len() ==> 1 <= #[trigger] state_changes(recs, n)[k]
                < n,
        forall|k: int, l: int|
            0 <= k < l < state_changes(recs, n).len() ==> state_changes(recs, n)[k]
                < state_changes(recs, n)[l],
    decreases n,
{
    if n > 1 {
        lemma_state_changes_range(recs, n - 1);
        let p = state_changes(recs, n - 1);
        let q = state_changes(recs, n);
        assert forall|k: int| 0 <= k < q.len() implies 1 <= #[trigger] q[k] < n by {
            if k < p.len() {
                assert(q[k] == p[k]);
            }
        }
        assert forall|k: int, l: int| 0 <= k < l < q.len() implies q[k] < q[l] by {
            if l < p.len() {
                assert(q[k] == p[k] && q[l] == p[l]);
            } else {
                assert(q[k] == p[k]);
            }
        }
    }
}

/// Splits the log into maximal runs of records with the same flight state.
pub fn build_state_segments(records: &[SdRecord]) -> (segs: Vec<StateSegment>)
    ensures
        records@.len() == 0 ==> segs@.len() == 0,
        records@.len() > 0 ==> segs@.len() == segment_starts(records@).len(),
        records@.len() > 0 ==> forall|j: int|
            0 <= j < segs@.len() ==> is_segment(records@, j, #[trigger] segs@[j]),
{
    let n = records.len();
    let mut segs: Vec<StateSegment> = Vec::new();
    if n == 0 {
        return segs;
    }
    let ghost recs = records@;
    let mut seg_start = records[0].tick;
    let mut seg_state = records[0].state;
    let mut i: usize = 1;
    while i < n
        invariant
            recs == records@,
            n == recs.len(),
            1 <= i <= n,
            segs@.len() + 1 == starts_upto(recs, i as int).len(),
            forall|j: int|
                0 <= j < segs@.len() ==> {
                    let st = starts_upto(recs, i as int);
                    &&& (#[trigger] segs@[j]).start_tick == recs[st[j]].tick
                    &&& segs@[j].end_tick == recs[st[j + 1]].tick
                    &&& segs@[j].state == recs[st[j]].state
                },
            seg_start == recs[starts_upto(recs, i as int).last()].tick,
            seg_state == recs[starts_upto(recs, i as int).last()].state,
            seg_state == recs[i - 1].state,
        decreases n - i,
    {
        proof {
            lemma_state_changes_range(recs, i as int);
        }
        let ghost old_st = starts_upto(recs, i as int);
        let r = &records[i];
        if r.state != seg_state {
            segs.push(StateSegment { start_tick: seg_start, end_tick: r.tick, state: seg_state });
            seg_start = r.tick;
            seg_state = r.state;
            assert(starts_upto(recs, i + 1) =~= old_st.push(i as int));
        } else {
            assert(starts_upto(recs, i + 1) =~= old_st);
        }
        i = i + 1;
    }
    proof {
        lemma_state_changes_range(recs, n as int);
    }
    segs.push(StateSegment { start_tick: seg_start, end_tick: records[n - 1].tick, state: seg_state });
    segs
}

/// The state changes among the first `m` records are a prefix of those among
/// the first `n`, and the later ones come at `m` or after.
proof fn lemma_state_changes_extend(recs: Seq<SdRecord>, m: int, n: int)
    requires
        0 <= m <= n <= recs.len(),
    ensures
        state_changes(recs, n).len() >= state_changes(recs, m).len(),
        forall|k: int|
            0 <= k < state_changes(recs, m).len() ==> #[trigger] state_changes(recs, n)[k]
                == state_changes(recs, m)[k],
        forall|k: int|
            state_changes(recs, m).len() <= k < state_changes(recs, n).len() ==> m
                <= #[trigger] state_changes(recs, n)[k],
    decreases n,
{
    if n > m {
        lemma_state_changes_extend(recs, m, n - 1);
        if n > 1 {
            let p = state_changes(recs, n - 1);
            let q = state_changes(recs, n);
            assert forall|k: int| 0 <= k < p.len() implies #[trigger] q[k] == p[k] by {}
        }
    }
}

/// Record `i` has the state of the record that starts its run.
proof fn lemma_run_state(recs: Seq<SdRecord>, i: int)
    requires
        0 <= i < recs.len(),
    ensures
        starts_upto(recs, i + 1).last() <= i,
        recs[i].state == recs[starts_upto(recs, i + 1).last()].state,
    decreases i,
{
    if i > 0 {
        lemma_run_state(recs, i - 1);
        lemma_state_changes_range(recs, i);
        if recs[i].state != recs[i - 1].state {
            assert(starts_upto(recs, i + 1) =~= starts_upto(recs, i).push(i));
        } else {
            assert(starts_upto(recs, i + 1) =~= starts_upto(recs, i));
        }
    }
}

/// Neighbouring segments: the boundary record's state differs from the
/// state of the segment before it.
proof fn lemma_segment_boundary(recs: Seq<SdRecord>, j: int)
    requires
        recs.len() > 0,
        0 <= j < segment_starts(recs).len() - 1,
    ensures
        recs[segment_starts(recs)[j + 1]].state != recs[segment_starts(recs)[j]].state,
{
    let n = recs.len() as int;
    let starts = segment_starts(recs);
    let sc = state_changes(recs, n);
    lemma_state_changes_range(recs, n);
    let c = starts[j + 1];
    assert(c == sc[j]);
    lemma_state_changes_extend(recs, c, n);
    lemma_state_changes_extend(recs, c + 1, n);
    lemma_run_state(recs, c - 1);
    lemma_state_changes_range(recs, c);
    let scc = state_changes(recs, c);
    assert(scc.len() == j) by {
        if scc.len() > j {
            assert(sc[j] == scc[j]);
        }
        if scc.len() < j {
            assert(sc[j - 1] >= c);
            assert(sc[j - 1] < sc[j]);
        }
    }
    if j > 0 {
        assert(scc[j - 1] == sc[j - 1]);
    }
    assert(starts_upto(recs, c).last() == starts[j]);
    let sc1 = state_changes(recs, c + 1);
    if recs[c].state == recs[c - 1].state {
        assert(sc1 == scc);
        assert(sc[j] >= c + 1);
    }
}

/// The index of the segment whose run holds record `i`: the number of state
/// changes up to and including record `i`.
pub open spec fn segment_of(recs: Seq<SdRecord>, i: int) -> int {
    state_changes(recs, i + 1).len() as int
}

/// Record `i` lies in the run of segment `segment_of(recs, i)`.
proof fn lemma_record_segment(recs: Seq<SdRecord>, i: int)
    requires
        0 <= i < recs.len(),
    ensures
        ({
            let j = state_changes(recs, i + 1).len() as int;
            let starts = segment_starts(recs);
            &&& 0 <= j < starts.len()
            &&& starts[j] <= i
            &&& (j + 1 < starts.len() ==> i < starts[j + 1])
            &&& recs[i].state == recs[starts[j]].state
        }),
{
    let n = recs.len() as int;
    let starts = segment_starts(recs);
    let sc = state_changes(recs, n);
    lemma_run_state(recs, i);
    lemma_state_changes_extend(recs, i + 1, n);
    lemma_state_changes_range(recs, i + 1);
    let sci = state_changes(recs, i + 1);
    let j = sci.len() as int;
    if j > 0 {
        assert(sc[j - 1] == sci[j - 1]);
    }
    assert(starts_upto(recs, i + 1).last() == starts[j]);
    if j + 1 < starts.len() {
        assert(starts[j + 1] == sc[j]);
    }
}

/// The state segments partition the log: the first starts at the first
/// record's tick, the last ends at the last record's tick, each ends where
/// the next starts, neighbouring segments have different states, and every
/// record's state is the state of the segment whose run holds it.
pub proof fn lemma_segments_partition_log(recs: Seq<SdRecord>, segs: Seq<StateSegment>)
    requires
        recs.len() > 0,
        segs.len() == segment_starts(recs).len(),
        forall|j: int| 0 <= j < segs.len() ==> is_segment(recs, j, #[trigger] segs[j]),
    ensures
        segs[0].start_tick == recs[0].tick,
        segs[segs.len() - 1].end_tick == recs[recs.len() - 1].tick,
        forall|j: int|
            0 <= j < segs.len() - 1 ==> (#[trigger] segs[j]).end_tick == segs[j + 1].start_tick
                && segs[j].state != segs[j + 1].state,
        forall|i: int|
            0 <= i < recs.len() ==> {
                let j = #[trigger] segment_of(recs, i);
                &&& 0 <= j < segs.len()
                &&& segment_starts(recs)[j] <= i
                &&& (j + 1 < segs.len() ==> i < segment_starts(recs)[j + 1])
                &&& recs[i].state == segs[j].state
            },
{
    let starts = segment_starts(recs);
    assert(is_segment(recs, 0, segs[0]));
    assert(is_segment(recs, segs.len() - 1, segs[segs.len() - 1]));
    assert forall|j: int| 0 <= j < segs.len() - 1 implies (#[trigger] segs[j]).end_tick == segs[j
        + 1].start_tick && segs[j].state != segs[j + 1].state by {
        assert(is_segment(recs, j, segs[j]));
        assert(is_segment(recs, j + 1, segs[j + 1]));
        lemma_segment_boundary(recs, j);
    }
    assert forall|i: int| 0 <= i < recs.len() implies {
        let j = #[trigger] segment_of(recs, i);
        &&& 0 <= j < segs.len()
        &&& starts[j] <= i
        &&& (j + 1 < segs.len() ==> i < starts[j + 1])
        &&& recs[i].state == segs[j].state
    } by {
        lemma_record_segment(recs, i);
        let j = segment_of(recs, i);
        assert(is_segment(recs, j, segs[j]));
    }
}

/// A stretch of the log where records went missing: two consecutive records
/// more than twice the usual tick spacing apart.
#[derive(Debug, Clone, Copy, PartialEq, Eq, Structural)]
pub struct GapInfo {
    pub start_tick: u32,
    pub end_tick: u32,
    pub dropped: u64,
    pub delta_ticks: u32,
    pub expected_ticks: u32,
}

/// The tick difference from `a` to `b`, modulo 2^32 (the tick counter wraps).
pub open spec fn tick_delta(a: u32, b: u32) -> u32 {
    if b >= a {
        (b - a) as u32
    } else {
        (b + 4294967296 - a) as u32
    }
}

/// The tick differences between consecutive records.
pub open spec fn tick_deltas(recs: Seq<SdRecord>) -> Seq<u32> {
    Seq::new((recs.len() - 1) as nat, |i: int| tick_delta(recs[i].tick, recs[i + 1].tick))
}

/// The usual ordering of tick differences.
pub open spec fn delta_le() -> spec_fn(u32, u32) -> bool {
    |a: u32, b: u32| a <= b
}

/// The usual tick spacing: the median tick difference (for an even count,
/// the upper of the two middle values).
pub open spec fn expected_delta(recs: Seq<SdRecord>) -> u32 {
    let d = tick_deltas(recs);
    d.sort_by(delta_le())[(d.len() / 2) as int]
}

/// Whether gap detection is defined on `recs`: with at least two records, the
/// doubled median spacing must fit in 32 bits, and a zero median leaves no
/// positive spacing (it would be divided by).
pub open spec fn gap_detection_defined(recs: Seq<SdRecord>) -> bool {
    recs.len() < 2 || {
        let e = expected_delta(recs);
        &&& e * 2 <= u32::MAX
        &&& e == 0 ==> forall|i: int| 0 <= i < recs.len() - 1 ==> tick_deltas(recs)[i] == 0
    }
}

/// The gap between records `i` and `i + 1`, given the usual spacing `e`.
pub open spec fn gap_at(recs: Seq<SdRecord>, e: u32, i: int) -> GapInfo {
    let d = tick_deltas(recs)[i];
    GapInfo {
        start_tick: recs[i].tick,
        end_tick: recs[i + 1].tick,
        dropped: if d / e >= 1 {
            (d / e - 1) as u64
        } else {
            0
        },
        delta_ticks: d,
        expected_ticks: e,
    }
}

/// The gaps among the first `k` spacings, in log order.
pub open spec fn gaps_upto(recs: Seq<SdRecord>, e: u32, k: int) -> Seq<GapInfo>
    decreases k,
{
    if k <= 0 {
        Seq::empty()
    } else {
        let p = gaps_upto(recs, e, k - 1);
        if tick_deltas(recs)[k - 1] > e * 2 {
            p.push(gap_at(recs, e, k - 1))
        } else {
            p
        }
    }
}

/// The gaps of the log `recs`.
pub open spec fn gaps_of(recs: Seq<SdRecord>) -> Seq<GapInfo> {
    if recs.len() < 2 {
        Seq::empty()
    } else {
        gaps_upto(recs, expected_delta(recs), recs.len() - 1)
    }
}

/// The ordering of tick differences is total.
proof fn lemma_delta_le_total()
    ensures
        total_ordering(delta_le()),
{
}

/// Sorts tick differences into ascending order.
fn sorted_deltas(v: &Vec<u32>) -> (r: Vec<u32>)
    ensures
        r@ == v@.sort_by(delta_le()),
{
    broadcast use vstd::seq_lib::group_to_multiset_ensures;
    broadcast use vstd::multiset::group_multiset_axioms;

    let n = v.len();
    let mut r: Vec<u32> = Vec::with_capacity(n);
    let mut i: usize = 0;
    while i < n
        invariant
            n == v@.len(),
            i <= n,
            sorted_by(r@, delta_le()),
            r@.to_multiset() == v@.take(i as int).to_multiset(),
        decreases n - i,
    {
        let x = v[i];
        let mut pos: usize = 0;
        while pos < r.len() && r[pos] <= x
            invariant
                pos <= r@.len(),
                forall|k: int| 0 <= k < pos ==> r@[k] <= x,
            decreases r@.len() - pos,
        {
            pos = pos + 1;
        }
        let ghost old_r = r@;
        assert forall|k: int| pos <= k < old_r.len() implies x < old_r[k] by {
            assert(delta_le()(old_r[pos as int], old_r[k]) || k == pos);
        }
        r.insert(pos, x);
        assert(r@.remove(pos as int) =~= old_r);
        assert(r@[pos as int] == x);
        proof {
            vstd::seq_lib::to_multiset_remove(r@, pos as int);
            r@.to_multiset_ensures();
        }
        assert(r@.to_multiset().remove(x) == old_r.to_multiset());
        assert(r@.contains(x));
        assert(r@.to_multiset().count(x) > 0);
        assert(r@.to_multiset() =~= old_r.to_multiset().insert(x));
        assert(v@.take(i + 1) =~= v@.take(i as int).push(x));
        proof {
            vstd::seq_lib::to_multiset_build(v@.take(i as int), x);
        }
        assert forall|a: int, b: int| 0 <= a < b < r@.len() implies #[trigger] delta_le()(
            r@[a],
            r@[b],
        ) by {
            if b < pos {
                assert(delta_le()(old_r[a], old_r[b]));
            } else if b == pos {
            } else if a < pos {
                assert(r@[b] == old_r[b - 1]);
            } else if a == pos {
                assert(r@[b] == old_r[b - 1]);
            } else {
                assert(delta_le()(old_r[a - 1], old_r[b - 1]));
            }
        }
        i = i + 1;
    }
    proof {
        assert(v@.take(n as int) =~= v@);
        lemma_delta_le_total();
        v@.lemma_sort_by_ensures(delta_le());
        vstd::seq_lib::lemma_sorted_unique(r@, v@.sort_by(delta_le()), delta_le());
    }
    r
}

/// The tick differences between consecutive records of the log.
fn deltas_of(records: &[SdRecord]) -> (d: Vec<u32>)
    requires
        records@.len() >= 1,
    ensures
        d@ == tick_deltas(records@),
{
    let n = records.len();
    let mut d: Vec<u32> = Vec::with_capacity(n - 1);
    let mut i: usize = 0;
    while i < n - 1
        invariant
            n == records@.len(),
            n >= 1,
            i <= n - 1,
            d@ == tick_deltas(records@).take(i as int),
        decreases n - 1 - i,
    {
        let a = records[i].tick;
        let b = records[i + 1].tick;
        let delta: u32 = if b >= a {
            b - a
        } else {
            ((b as u64 + 4294967296u64) - a as u64) as u32
        };
        d.push(delta);
        i = i + 1;
        assert(d@ =~= tick_deltas(records@).take(i as int));
    }
    assert(d@ =~= tick_deltas(records@));
    d
}

/// The usual tick spacing of the log (the median spacing), or `None` for
/// fewer than two records.
pub fn expected_tick_delta(records: &[SdRecord]) -> (r: Option<u32>)
    ensures
        records@.len() < 2 ==> r is None,
        records@.len() >= 2 ==> r == Some(expected_delta(records@)),
{
    if records.len() < 2 {
        return None;
    }
    let d = deltas_of(records);
    let sorted = sorted_deltas(&d);
    proof {
        broadcast use vstd::seq_lib::group_to_multiset_ensures;

        lemma_delta_le_total();
        d@.lemma_sort_by_ensures(delta_le());
        assert(sorted@.len() == sorted@.to_multiset().len());
        assert(d@.len() == d@.to_multiset().len());
    }
    Some(sorted[sorted.len() / 2])
}

/// Whether `detect_gaps` is defined on the log (see `gap_detection_defined`).
pub fn gap_detection_is_defined(records: &[SdRecord]) -> (r: bool)
    ensures
        r == gap_detection_defined(records@),
{
    let n = records.len();
    match expected_tick_delta(records) {
        None => true,
        Some(e) => {
            if e > u32::MAX / 2 {
                return false;
            }
            if e > 0 {
                return true;
            }
            let d = deltas_of(records);
            let mut i: usize = 0;
            while i < d.len()
                invariant
                    d@ == tick_deltas(records@),
                    n == records@.len(),
                    n >= 2,
                    expected_delta(records@) == 0,
                    d@.len() == n - 1,
                    i <= d@.len(),
                    forall|k: int| 0 <= k < i ==> d@[k] == 0,
                decreases d@.len() - i,
            {
                if d[i] != 0 {
                    assert(tick_deltas(records@)[i as int] != 0);
                    return false;
                }
                i = i + 1;
            }
            true
        },
    }
}

/// The gaps of the log: every pair of consecutive records more than twice
/// the usual spacing apart, with the number of records missing between them.
pub fn detect_gaps(records: &[SdRecord]) -> (gaps: Vec<GapInfo>)
    requires
        gap_detection_defined(records@),
    ensures
        gaps@ == gaps_of(records@),
{
    let n = records.len();
    let mut gaps: Vec<GapInfo> = Vec::new();
    if n < 2 {
        return gaps;
    }
    let d = deltas_of(records);
    let expected = match expected_tick_delta(records) {
        Some(e) => e,
        None => 0,
    };
    let mut i: usize = 0;
    while i < n - 1
        invariant
            n == records@.len(),
            n >= 2,
            i <= n - 1,
            d@ == tick_deltas(records@),
            expected == expected_delta(records@),
            gap_detection_defined(records@),
            gaps@ == gaps_upto(records@, expected, i as int),
        decreases n - 1 - i,
    {
        let delta = d[i];
        if delta > expected * 2 {
            let dropped = (delta / expected).saturating_sub(1) as u64;
            gaps.push(
                GapInfo {
                    start_tick: records[i].tick,
                    end_tick: records[i + 1].tick,
                    dropped,
                    delta_ticks: delta,
                    expected_ticks: expected,
                },
            );
        }
        i = i + 1;
    }
    gaps
}

/// With no spacing above twice the usual one, the first `k` spacings hold no gap.
proof fn lemma_no_gaps_upto(recs: Seq<SdRecord>, e: u32, k: int)
    requires
        0 <= k <= recs.len() - 1,
        forall|i: int| 0 <= i < k ==> #[trigger] tick_deltas(recs)[i] <= e * 2,
    ensures
        gaps_upto(recs, e, k) == Seq::<GapInfo>::empty(),
    decreases k,
{
    if k > 0 {
        lemma_no_gaps_upto(recs, e, k - 1);
    }
}

/// The usual spacing is one of the log's spacings.
proof fn lemma_expected_delta_occurs(recs: Seq<SdRecord>)
    requires
        recs.len() >= 2,
    ensures
        tick_deltas(recs).contains(expected_delta(recs)),
{
    broadcast use vstd::seq_lib::group_to_multiset_ensures;

    let d = tick_deltas(recs);
    lemma_delta_le_total();
    d.lemma_sort_by_ensures(delta_le());
    let sorted = d.sort_by(delta_le());
    assert(sorted.len() == sorted.to_multiset().len());
    assert(d.len() == d.to_multiset().len());
    assert(sorted.contains(sorted[(d.len() / 2) as int]));
}

/// A log whose records are evenly spaced has no gaps.
pub proof fn lemma_even_log_has_no_gaps(recs: Seq<SdRecord>)
    requires
        forall|i: int|
            0 <= i < recs.len() - 1 ==> #[trigger] tick_deltas(recs)[i] == tick_deltas(recs)[0],
    ensures
        gaps_of(recs) == Seq::<GapInfo>::empty(),
{
    if recs.len() >= 2 {
        lemma_expected_delta_occurs(recs);
        let e = expected_delta(recs);
        assert(e == tick_deltas(recs)[0]);
        lemma_no_gaps_upto(recs, e, recs.len() - 1);
    }
}

/// Whether spacing `i` is a gap under usual spacing `e`, reported as `g`.
pub open spec fn reports_gap(recs: Seq<SdRecord>, e: u32, i: int, g: GapInfo) -> bool {
    &&& g == gap_at(recs, e, i)
    &&& tick_deltas(recs)[i] > e * 2
    &&& g.dropped >= 1
}

/// Each gap among the first `k` spacings under a positive usual spacing `e`
/// is reported for one of those spacings.
proof fn lemma_gaps_upto_are_long_spacings(recs: Seq<SdRecord>, e: u32, k: int, j: int)
    requires
        0 <= k <= recs.len() - 1,
        e > 0,
        0 <= j < gaps_upto(recs, e, k).len(),
    ensures
        exists|i: int| 0 <= i < k && #[trigger] reports_gap(recs, e, i, gaps_upto(recs, e, k)[j]),
    decreases k,
{
    let p = gaps_upto(recs, e, k - 1);
    let q = gaps_upto(recs, e, k);
    if j < p.len() {
        assert(q[j] == p[j]);
        lemma_gaps_upto_are_long_spacings(recs, e, k - 1, j);
        let i = choose|i: int| 0 <= i < k - 1 && #[trigger] reports_gap(recs, e, i, p[j]);
        assert(reports_gap(recs, e, i, q[j]));
    } else {
        let d = tick_deltas(recs)[k - 1];
        assert(d > e * 2);
        assert(d / e >= 2) by (nonlinear_arith)
            requires
                d > e * 2,
                e > 0,
        ;
        assert(reports_gap(recs, e, k - 1, q[j]));
    }
}

/// Every gap of a log lies between two consecutive records, spans more than
/// twice the usual spacing, and counts at least one missing record.
pub proof fn lemma_gap_is_long_spacing(recs: Seq<SdRecord>, j: int)
    requires
        gap_detection_defined(recs),
        0 <= j < gaps_of(recs).len(),
    ensures
        exists|i: int|
            0 <= i < recs.len() - 1 && #[trigger] reports_gap(
                recs,
                expected_delta(recs),
                i,
                gaps_of(recs)[j],
            ),
{
    let e = expected_delta(recs);
    if e == 0 {
        assert forall|i: int| 0 <= i < recs.len() - 1 implies #[trigger] tick_deltas(recs)[i]
            <= e * 2 by {}
        lemma_no_gaps_upto(recs, e, recs.len() - 1);
    } else {
        lemma_gaps_upto_are_long_spacings(recs, e, recs.len() - 1, j);
    }
}

/// Whether `m` is the marker described by `d` (tick, label, colour, and
/// whether a command caused it).
pub open spec fn marker_is(m: TimelineMarker, d: (u32, Seq<char>, Rgb, bool)) -> bool {
    &&& m.tick == d.0
    &&& m.label@ == d.1
    &&& m.color == d.2
    &&& m.is_command == d.3
}

/// An event on the log viewer's timeline.
#[derive(Debug, Clone, Copy)]
pub struct TimelineMarker {
    pub tick: u32,
    pub label: &'static str,
    pub color: Rgb,
    pub is_command: bool,
}

/// The relay events of record `i`: the drogue relay firing (it was off in the
/// previous record, or this is the first record), then the main parachute
/// relay firing.
pub open spec fn relay_events_at(recs: Seq<SdRecord>, i: int) -> Seq<(u32, Seq<char>, Rgb, bool)> {
    let r = recs[i];
    let prev_drogue = i > 0 && recs[i - 1].relay.drogue_fired;
    let prev_chute = i > 0 && recs[i - 1].relay.parachute_fired;
    (if r.relay.drogue_fired && !prev_drogue {
        seq![(r.tick, "DROGUE"@, rgb(255, 165, 0), false)]
    } else {
        Seq::empty()
    }) + (if r.relay.parachute_fired && !prev_chute {
        seq![(r.tick, "PARACHUTE"@, rgb(0, 200, 255), false)]
    } else {
        Seq::empty()
    })
}

/// The relay events among the first `k` records, in log order.
pub open spec fn relay_events_upto(recs: Seq<SdRecord>, k: int) -> Seq<(u32, Seq<char>, Rgb, bool)>
    decreases k,
{
    if k <= 0 {
        Seq::empty()
    } else {
        relay_events_upto(recs, k - 1) + relay_events_at(recs, k - 1)
    }
}

/// Marks every firing of the drogue and main parachute relays.
pub fn detect_relay_events(records: &[SdRecord]) -> (markers: Vec<TimelineMarker>)
    ensures
        markers@.len() == relay_events_upto(records@, records@.len() as int).len(),
        forall|i: int|
            0 <= i < markers@.len() ==> marker_is(
                #[trigger] markers@[i],
                relay_events_upto(records@, records@.len() as int)[i],
            ),
{
    let n = records.len();
    let mut markers: Vec<TimelineMarker> = Vec::new();
    let mut prev_drogue = false;
    let mut prev_chute = false;
    let mut i: usize = 0;
    while i < n
        invariant
            n == records@.len(),
            i <= n,
            prev_drogue == (i > 0 && records@[i - 1].relay.drogue_fired),
            prev_chute == (i > 0 && records@[i - 1].relay.parachute_fired),
            markers@.len() == relay_events_upto(records@, i as int).len(),
            forall|k: int|
                0 <= k < markers@.len() ==> marker_is(
                    #[trigger] markers@[k],
                    relay_events_upto(records@, i as int)[k],
                ),
        decreases n - i,
    {
        let r = &records[i];
        let ghost before = markers@;
        let ghost ev = relay_events_at(records@, i as int);
        if r.relay.drogue_fired && !prev_drogue {
            markers.push(
                TimelineMarker {
                    tick: r.tick,
                    label: "DROGUE",
                    color: Rgb { r: 255, g: 165, b: 0 },
                    is_command: false,
                },
            );
        }
        if r.relay.parachute_fired && !prev_chute {
            markers.push(
                TimelineMarker {
                    tick: r.tick,
                    label: "PARACHUTE",
                    color: Rgb { r: 0, g: 200, b: 255 },
                    is_command: false,
                },
            );
        }
        assert(relay_events_upto(records@, i + 1) == relay_events_upto(records@, i as int) + ev);
        assert forall|k: int| 0 <= k < markers@.len() implies marker_is(
            #[trigger] markers@[k],
            relay_events_upto(records@, i + 1)[k],
        ) by {
            if k < before.len() {
                assert(markers@[k] == before[k]);
            }
        }
        prev_drogue = r.relay.drogue_fired;
        prev_chute = r.relay.parachute_fired;
        i = i + 1;
    }
    markers
}

/// The timeline label of a command event.
pub open spec fn command_marker_label(c: Command) -> Seq<char> {
    match c {
        Command::Reset => "CMD: RESET"@,
        Command::GroundAbort => "CMD: GROUND ABORT"@,
        Command::Calibration => "CMD: CALIBRATION"@,
        Command::Drogue => "CMD: DROGUE"@,
        Command::Landed => "CMD: LANDED"@,
        Command::NoCommand => Seq::empty(),
    }
}

/// The timeline colour of a command event.
pub open spec fn command_marker_color(c: Command) -> Rgb {
    match c {
        Command::Reset => rgb(200, 100, 200),
        Command::GroundAbort => rgb(255, 50, 50),
        Command::Calibration => rgb(180, 180, 100),
        Command::Drogue => rgb(255, 165, 0),
        Command::Landed => rgb(80, 200, 80),
        Command::NoCommand => rgb(0, 0, 0),
    }
}

/// The command event of record `i`: its last-received command, when that
/// differs from the previous record's (no command before the first record)
/// and is a command at all.
pub open spec fn command_events_at(recs: Seq<SdRecord>, i: int) -> Seq<(u32, Seq<char>, Rgb, bool)> {
    let r = recs[i];
    let prev = if i > 0 {
        recs[i - 1].last_command
    } else {
        Command::NoCommand
    };
    if r.last_command != prev && r.last_command != Command::NoCommand {
        seq![
            (
                r.tick,
                command_marker_label(r.last_command),
                command_marker_color(r.last_command),
                true,
            ),
        ]
    } else {
        Seq::empty()
    }
}

/// The command events among the first `k` records, in log order.
pub open spec fn command_events_upto(recs: Seq<SdRecord>, k: int) -> Seq<
    (u32, Seq<char>, Rgb, bool),
>
    decreases k,
{
    if k <= 0 {
        Seq::empty()
    } else {
        command_events_upto(recs, k - 1) + command_events_at(recs, k - 1)
    }
}

/// The label and colour of a command event.
fn command_marker(c: Command) -> (r: (&'static str, Rgb))
    requires
        c != Command::NoCommand,
    ensures
        r.0@ == command_marker_label(c),
        r.1 == command_marker_color(c),
{
    match c {
        Command::Reset => ("CMD: RESET", Rgb { r: 200, g: 100, b: 200 }),
        Command::GroundAbort => ("CMD: GROUND ABORT", Rgb { r: 255, g: 50, b: 50 }),
        Command::Calibration => ("CMD: CALIBRATION", Rgb { r: 180, g: 180, b: 100 }),
        Command::Drogue => ("CMD: DROGUE", Rgb { r: 255, g: 165, b: 0 }),
        _ => ("CMD: LANDED", Rgb { r: 80, g: 200, b: 80 }),
    }
}

/// Marks every change of the last command the flight computer received.
pub fn detect_command_events(records: &[SdRecord]) -> (markers: Vec<TimelineMarker>)
    ensures
        markers@.len() == command_events_upto(records@, records@.len() as int).len(),
        forall|i: int|
            0 <= i < markers@.len() ==> marker_is(
                #[trigger] markers@[i],
                command_events_upto(records@, records@.len() as int)[i],
            ),
{
    let n = records.len();
    let mut markers: Vec<TimelineMarker> = Vec::new();
    let mut prev_cmd = Command::NoCommand;
    let mut i: usize = 0;
    while i < n
        invariant
            n == records@.len(),
            i <= n,
            prev_cmd == (if i > 0 {
                records@[i - 1].last_command
            } else {
                Command::NoCommand
            }),
            markers@.len() == command_events_upto(records@, i as int).len(),
            forall|k: int|
                0 <= k < markers@.len() ==> marker_is(
                    #[trigger] markers@[k],
                    command_events_upto(records@, i as int)[k],
                ),
        decreases n - i,
    {
        let r = &records[i];
        let ghost before = markers@;
        if r.last_command != prev_cmd && r.last_command != Command::NoCommand {
            let (label, color) = command_marker(r.last_command);
            markers.push(TimelineMarker { tick: r.tick, label, color, is_command: true });
        }
        assert(command_events_upto(records@, i + 1) == command_events_upto(records@, i as int)
            + command_events_at(records@, i as int));
        assert forall|k: int| 0 <= k < markers@.len() implies marker_is(
            #[trigger] markers@[k],
            command_events_upto(records@, i + 1)[k],
        ) by {
            if k < before.len() {
                assert(markers@[k] == before[k]);
            }
        }
        prev_cmd = r.last_command;
        i = i + 1;
    }
    markers
}

/// How many of the first `k` markers fall on tick `t`.
pub open spec fn markers_at_tick(ms: Seq<TimelineMarker>, t: u32, k: int) -> nat
    decreases k,
{
    if k <= 0 {
        0
    } else {
        markers_at_tick(ms, t, k - 1) + if ms[k - 1].tick == t {
            1nat
        } else {
            0nat
        }
    }
}

/// The row at which each marker's label is drawn: labels on the same tick
/// are stacked, the first marker of a tick on row 0 and each later one a row
/// further down.
pub fn marker_rows(markers: &[TimelineMarker]) -> (rows: Vec<usize>)
    ensures
        rows@.len() == markers@.len(),
        forall|i: int|
            0 <= i < rows@.len() ==> rows@[i] == markers_at_tick(markers@, markers@[i].tick, i),
{
    let n = markers.len();
    let mut rows: Vec<usize> = Vec::with_capacity(n);
    let mut i: usize = 0;
    while i < n
        invariant
            n == markers@.len(),
            i <= n,
            rows@.len() == i,
            forall|k: int|
                0 <= k < i ==> rows@[k] == markers_at_tick(markers@, markers@[k].tick, k),
        decreases n - i,
    {
        let t = markers[i].tick;
        let mut count: usize = 0;
        let mut j: usize = 0;
        while j < i
            invariant
                i < n,
                n == markers@.len(),
                t == markers@[i as int].tick,
                j <= i,
                count <= j,
                count == markers_at_tick(markers@, t, j as int),
            decreases i - j,
        {
            if markers[j].tick == t {
                count = count + 1;
            }
            j = j + 1;
        }
        rows.push(count);
        i = i + 1;
    }
    rows
}

/// The indices, in log order, of those of the first `k` segments that are in
/// state `s`.
pub open spec fn segment_indices_in(segs: Seq<StateSegment>, s: FlightState, k: int) -> Seq<usize>
    decreases k,
{
    if k <= 0 {
        Seq::empty()
    } else {
        let p = segment_indices_in(segs, s, k - 1);
        if segs[k - 1].state == s {
            p.push((k - 1) as usize)
        } else {
            p
        }
    }
}

/// The timeline's bar groups among the states with codes below `c`: for each
/// such state that has segments, in code order, the state and the indices of
/// its segments.
pub open spec fn segment_groups_upto(segs: Seq<StateSegment>, c: int) -> Seq<
    (FlightState, Seq<usize>),
>
    decreases c,
{
    if c <= 0 {
        Seq::empty()
    } else {
        let p = segment_groups_upto(segs, c - 1);
        match flight_state_of((c - 1) as u8) {
            Some(s) => {
                let ix = segment_indices_in(segs, s, segs.len() as int);
                if ix.len() > 0 {
                    p.push((s, ix))
                } else {
                    p
                }
            },
            None => p,
        }
    }
}

/// Number of flight-state codes.
pub const FLIGHT_STATE_COUNT: u8 = 11;

/// The segments grouped by state for the timeline's bars: one group per state
/// that has segments, in order of the state codes, each with the indices of
/// its segments in log order.
pub fn segment_groups(segments: &[StateSegment]) -> (groups: Vec<(FlightState, Vec<usize>)>)
    ensures
        groups@.len() == segment_groups_upto(segments@, FLIGHT_STATE_COUNT as int).len(),
        forall|g: int|
            0 <= g < groups@.len() ==> {
                let want = segment_groups_upto(segments@, FLIGHT_STATE_COUNT as int)[g];
                &&& (#[trigger] groups@[g]).0 == want.0
                &&& groups@[g].1@ == want.1
            },
{
    let n = segments.len();
    let mut groups: Vec<(FlightState, Vec<usize>)> = Vec::new();
    let mut code: u8 = 0;
    while code < FLIGHT_STATE_COUNT
        invariant
            n == segments@.len(),
            code <= FLIGHT_STATE_COUNT,
            groups@.len() == segment_groups_upto(segments@, code as int).len(),
            forall|g: int|
                0 <= g < groups@.len() ==> {
                    let want = segment_groups_upto(segments@, code as int)[g];
                    &&& (#[trigger] groups@[g]).0 == want.0
                    &&& groups@[g].1@ == want.1
                },
        decreases FLIGHT_STATE_COUNT - code,
    {
        let ghost before = groups@;
        match FlightState::from_u8(code) {
            Some(s) => {
                let mut ix: Vec<usize> = Vec::new();
                let mut i: usize = 0;
                while i < n
                    invariant
                        n == segments@.len(),
                        i <= n,
                        ix@ == segment_indices_in(segments@, s, i as int),
                    decreases n - i,
                {
                    if segments[i].state == s {
                        ix.push(i);
                    }
                    i = i + 1;
                }
                if ix.len() > 0 {
                    groups.push((s, ix));
                }
            },
            None => {},
        }
        assert forall|g: int| 0 <= g < groups@.len() implies {
            let want = segment_groups_upto(segments@, code + 1)[g];
            &&& (#[trigger] groups@[g]).0 == want.0
            &&& groups@[g].1@ == want.1
        } by {
            if g < before.len() {
                assert(groups@[g] == before[g]);
            }
        }
        code = code + 1;
    }
    groups
}

/// The indices `0..n` in order.
pub open spec fn indices(n: nat) -> Seq<int> {
    Seq::new(n, |i: int| i)
}

/// Whether a timeline event carries label `l`.
pub open spec fn labelled(l: Seq<char>) -> spec_fn((u32, Seq<char>, Rgb, bool)) -> bool {
    |e: (u32, Seq<char>, Rgb, bool)| e.1 == l
}

/// Whether record `i` is where the drogue relay fires: fired in record `i`,
/// and not in the record before it (if any).
pub open spec fn drogue_rises(recs: Seq<SdRecord>) -> spec_fn(int) -> bool {
    |i: int| recs[i].relay.drogue_fired && !(i > 0 && recs[i - 1].relay.drogue_fired)
}

/// Whether record `i` is where the main parachute relay fires: fired in
/// record `i`, and not in the record before it (if any).
pub open spec fn parachute_rises(recs: Seq<SdRecord>) -> spec_fn(int) -> bool {
    |i: int| recs[i].relay.parachute_fired && !(i > 0 && recs[i - 1].relay.parachute_fired)
}

/// The relay marker with label `l` and colour `c` placed at record `i`.
pub open spec fn relay_marker_at(recs: Seq<SdRecord>, l: Seq<char>, c: Rgb) -> spec_fn(int) -> (
    u32,
    Seq<char>,
    Rgb,
    bool,
) {
    |i: int| (recs[i].tick, l, c, false)
}

/// Whether record `i` brings a new command: its last command is a command,
/// and differs from the previous record's (no command before the first).
pub open spec fn command_changes(recs: Seq<SdRecord>) -> spec_fn(int) -> bool {
    |i: int|
        recs[i].last_command != Command::NoCommand && recs[i].last_command != (if i > 0 {
            recs[i - 1].last_command
        } else {
            Command::NoCommand
        })
}

/// The command marker placed at record `i`.
pub open spec fn command_marker_at(recs: Seq<SdRecord>) -> spec_fn(int) -> (
    u32,
    Seq<char>,
    Rgb,
    bool,
) {
    |i: int|
        (
            recs[i].tick,
            command_marker_label(recs[i].last_command),
            command_marker_color(recs[i].last_command),
            true,
        )
}

/// Whether spacing `i` (between records `i` and `i + 1`) is more than twice
/// the median spacing.
pub open spec fn long_spacing(recs: Seq<SdRecord>) -> spec_fn(int) -> bool {
    |i: int| tick_deltas(recs)[i] > expected_delta(recs) * 2
}

/// The gap reported for spacing `i`: the two records' ticks, the records
/// missing between them (the spacing in median spacings, less one), the
/// spacing and the median.
pub open spec fn gap_report_at(recs: Seq<SdRecord>) -> spec_fn(int) -> GapInfo {
    |i: int|
        GapInfo {
            start_tick: recs[i].tick,
            end_tick: recs[i + 1].tick,
            dropped: (tick_deltas(recs)[i] / expected_delta(recs) - 1) as u64,
            delta_ticks: tick_deltas(recs)[i],
            expected_ticks: expected_delta(recs),
        }
}

/// Filtering the indices `0..k+1` adds index `k` at the end when it passes.
proof fn lemma_indices_step<A>(k: nat, p: spec_fn(int) -> bool, g: spec_fn(int) -> A)
    ensures
        indices(k + 1).filter(p).map_values(g) == indices(k).filter(p).map_values(g) + (if p(
            k as int,
        ) {
            seq![g(k as int)]
        } else {
            Seq::empty()
        }),
{
    reveal(Seq::filter);
    let s = indices(k + 1);
    assert(s.drop_last() =~= indices(k));
    assert(s.last() == k as int);
    if p(k as int) {
        assert(s.filter(p) == indices(k).filter(p).push(k as int));
        assert(indices(k).filter(p).push(k as int).map_values(g) =~= indices(k).filter(p).map_values(
            g,
        ) + seq![g(k as int)]);
    } else {
        assert(s.filter(p) == indices(k).filter(p));
        assert(indices(k).filter(p).map_values(g) + Seq::<A>::empty() =~= indices(k).filter(
            p,
        ).map_values(g));
    }
}

/// Filtering a one-element sequence keeps the element exactly when it passes.
proof fn lemma_filter_single<A>(x: A, p: spec_fn(A) -> bool)
    ensures
        seq![x].filter(p) == (if p(x) {
            seq![x]
        } else {
            Seq::<A>::empty()
        }),
{
    reveal(Seq::filter);
    let s = seq![x];
    assert(s.drop_last() =~= Seq::<A>::empty());
    assert(Seq::<A>::empty().filter(p) =~= Seq::<A>::empty());
    assert(Seq::<A>::empty().push(x) =~= s);
}

/// Filtering and mapping nothing gives nothing.
proof fn lemma_filter_empty<A, B>(p: spec_fn(A) -> bool, g: spec_fn(A) -> B)
    ensures
        Seq::<A>::empty().filter(p) == Seq::<A>::empty(),
        Seq::<A>::empty().filter(p).map_values(g) == Seq::<B>::empty(),
{
    reveal(Seq::filter);
    assert(Seq::<A>::empty().filter(p).map_values(g) =~= Seq::<B>::empty());
}

/// Relay events among the first `k` records, by label.
proof fn lemma_relay_events_upto(recs: Seq<SdRecord>, k: nat)
    requires
        k <= recs.len(),
    ensures
        relay_events_upto(recs, k as int).filter(labelled("DROGUE"@)) == indices(k).filter(
            drogue_rises(recs),
        ).map_values(relay_marker_at(recs, "DROGUE"@, rgb(255, 165, 0))),
        relay_events_upto(recs, k as int).filter(labelled("PARACHUTE"@)) == indices(k).filter(
            parachute_rises(recs),
        ).map_values(relay_marker_at(recs, "PARACHUTE"@, rgb(0, 200, 255))),
        forall|j: int|
            0 <= j < relay_events_upto(recs, k as int).len() ==> (#[trigger] relay_events_upto(
                recs,
                k as int,
            )[j]).1 == "DROGUE"@ || relay_events_upto(recs, k as int)[j].1 == "PARACHUTE"@,
    decreases k,
{
    reveal_strlit("DROGUE");
    reveal_strlit("PARACHUTE");
    let dl = labelled("DROGUE"@);
    let pl = labelled("PARACHUTE"@);
    let dm = relay_marker_at(recs, "DROGUE"@, rgb(255, 165, 0));
    let pm = relay_marker_at(recs, "PARACHUTE"@, rgb(0, 200, 255));
    if k == 0 {
        assert(relay_events_upto(recs, 0) =~= Seq::empty());
        assert(indices(0) =~= Seq::<int>::empty());
        lemma_filter_empty(dl, |e: (u32, Seq<char>, Rgb, bool)| e);
        lemma_filter_empty(pl, |e: (u32, Seq<char>, Rgb, bool)| e);
        lemma_filter_empty(drogue_rises(recs), dm);
        lemma_filter_empty(parachute_rises(recs), pm);
    } else {
        let i = k - 1;
        lemma_relay_events_upto(recs, i as nat);
        let a = relay_events_upto(recs, i);
        let r = recs[i];
        let de: Seq<(u32, Seq<char>, Rgb, bool)> = if drogue_rises(recs)(i) {
            seq![dm(i)]
        } else {
            Seq::empty()
        };
        let pe: Seq<(u32, Seq<char>, Rgb, bool)> = if parachute_rises(recs)(i) {
            seq![pm(i)]
        } else {
            Seq::empty()
        };
        assert(relay_events_at(recs, i) == de + pe);
        assert(relay_events_upto(recs, k as int) == a + (de + pe));
        Seq::filter_distributes_over_add(a, de + pe, dl);
        Seq::filter_distributes_over_add(a, de + pe, pl);
        Seq::filter_distributes_over_add(de, pe, dl);
        Seq::filter_distributes_over_add(de, pe, pl);
        lemma_filter_single(dm(i), dl);
        lemma_filter_single(dm(i), pl);
        lemma_filter_single(pm(i), dl);
        lemma_filter_single(pm(i), pl);
        lemma_filter_empty(dl, |e: (u32, Seq<char>, Rgb, bool)| e);
        lemma_filter_empty(pl, |e: (u32, Seq<char>, Rgb, bool)| e);
        assert("DROGUE"@ != "PARACHUTE"@) by {
            assert("DROGUE"@.len() != "PARACHUTE"@.len());
        }
        assert(dl(dm(i)) && !pl(dm(i)));
        assert(pl(pm(i)) && !dl(pm(i)));
        assert(de.filter(dl) == de);
        assert(de.filter(pl) == Seq::<(u32, Seq<char>, Rgb, bool)>::empty());
        assert(pe.filter(pl) == pe);
        assert(pe.filter(dl) == Seq::<(u32, Seq<char>, Rgb, bool)>::empty());
        assert((de + pe).filter(dl) =~= de);
        assert((de + pe).filter(pl) =~= pe);
        lemma_indices_step(i as nat, drogue_rises(recs), dm);
        lemma_indices_step(i as nat, parachute_rises(recs), pm);
        let all = relay_events_upto(recs, k as int);
        assert forall|j: int| 0 <= j < all.len() implies (#[trigger] all[j]).1 == "DROGUE"@
            || all[j].1 == "PARACHUTE"@ by {
            if j >= a.len() {
                assert(all[j] == (de + pe)[j - a.len()]);
            } else {
                assert(all[j] == a[j]);
            }
        }
    }
}

/// The relay markers of a log are its relay firings: one DROGUE marker at
/// each record where the drogue relay is fired and was not fired in the
/// record before, one PARACHUTE marker at each record where the main
/// parachute relay is fired and was not before, in log order, and no other
/// marker; a relay that stays fired is marked once.
pub proof fn lemma_relay_markers_are_rising_edges(recs: Seq<SdRecord>)
    ensures
        relay_events_upto(recs, recs.len() as int).filter(labelled("DROGUE"@)) == indices(
            recs.len(),
        ).filter(drogue_rises(recs)).map_values(relay_marker_at(recs, "DROGUE"@, rgb(255, 165, 0))),
        relay_events_upto(recs, recs.len() as int).filter(labelled("PARACHUTE"@)) == indices(
            recs.len(),
        ).filter(parachute_rises(recs)).map_values(
            relay_marker_at(recs, "PARACHUTE"@, rgb(0, 200, 255)),
        ),
        forall|j: int|
            0 <= j < relay_events_upto(recs, recs.len() as int).len() ==> (
            #[trigger] relay_events_upto(recs, recs.len() as int)[j]).1 == "DROGUE"@
                || relay_events_upto(recs, recs.len() as int)[j].1 == "PARACHUTE"@,
{
    lemma_relay_events_upto(recs, recs.len());
}

/// Command events among the first `k` records.
proof fn lemma_command_events_upto(recs: Seq<SdRecord>, k: nat)
    requires
        k <= recs.len(),
    ensures
        command_events_upto(recs, k as int) == indices(k).filter(command_changes(recs)).map_values(
            command_marker_at(recs),
        ),
    decreases k,
{
    if k == 0 {
        assert(indices(0) =~= Seq::<int>::empty());
        lemma_filter_empty(command_changes(recs), command_marker_at(recs));
    } else {
        let i = k - 1;
        lemma_command_events_upto(recs, i as nat);
        lemma_indices_step(i as nat, command_changes(recs), command_marker_at(recs));
        assert(command_events_at(recs, i as int) == (if command_changes(recs)(i as int) {
            seq![command_marker_at(recs)(i as int)]
        } else {
            Seq::empty()
        }));
    }
}

/// The command markers of a log: one at each record whose last command is a
/// command and differs from the previous record's (no command before the
/// first record), in log order, with that command's label and colour. Each
/// record is judged against the record before it alone, so a command sent
/// again after another value is marked again.
pub proof fn lemma_command_markers_are_changes(recs: Seq<SdRecord>)
    ensures
        command_events_upto(recs, recs.len() as int) == indices(recs.len()).filter(
            command_changes(recs),
        ).map_values(command_marker_at(recs)),
{
    lemma_command_events_upto(recs, recs.len());
}

/// Gaps among the first `k` spacings.
proof fn lemma_gaps_upto_filter(recs: Seq<SdRecord>, k: nat)
    requires
        recs.len() >= 2,
        k <= recs.len() - 1,
        gap_detection_defined(recs),
    ensures
        gaps_upto(recs, expected_delta(recs), k as int) == indices(k).filter(
            long_spacing(recs),
        ).map_values(gap_report_at(recs)),
    decreases k,
{
    if k == 0 {
        assert(indices(0) =~= Seq::<int>::empty());
        lemma_filter_empty(long_spacing(recs), gap_report_at(recs));
    } else {
        let i = k - 1;
        let e = expected_delta(recs);
        lemma_gaps_upto_filter(recs, i as nat);
        lemma_indices_step(i as nat, long_spacing(recs), gap_report_at(recs));
        if long_spacing(recs)(i as int) {
            let d = tick_deltas(recs)[i as int];
            assert(e > 0);
            assert(d / e >= 2) by (nonlinear_arith)
                requires
                    d > e * 2,
                    e > 0,
            ;
            assert(gap_at(recs, e, i as int) == gap_report_at(recs)(i as int));
        }
    }
}

/// The gaps of a log are exactly its long spacings: for every pair of
/// consecutive records more than twice the median spacing apart, and for no
/// other, a gap in log order with the two ticks, the spacing, the median, and
/// the spacing in medians less one as the number of missing records.
pub proof fn lemma_gaps_are_the_long_spacings(recs: Seq<SdRecord>)
    requires
        gap_detection_defined(recs),
    ensures
        gaps_of(recs) == indices(if recs.len() > 0 {
            (recs.len() - 1) as nat
        } else {
            0
        }).filter(long_spacing(recs)).map_values(gap_report_at(recs)),
{
    if recs.len() >= 2 {
        lemma_gaps_upto_filter(recs, (recs.len() - 1) as nat);
    } else {
        assert(indices(0) =~= Seq::<int>::empty());
        lemma_filter_empty(long_spacing(recs), gap_report_at(recs));
        if recs.len() == 1 {
            assert(indices((recs.len() - 1) as nat) =~= Seq::<int>::empty());
        }
    }
}

} // verus!
