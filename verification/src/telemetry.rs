//! How full the internal queues of the sensors are.
use vstd::prelude::*;
use vstd::string::StringExecFns;
use crate::id_map::{ids_ascending, lemma_ascending_ids_unique, lemma_take_one_more, IdMap};
use crate::models::{
    frame_views, status_views, texts, AggregatedFrame, BufferTelemetrySnapshot, FrameView,
    SensorBufferStatus, StatusView, TelemetryView,
};
use crate::text::{decimal, push_decimal};

verus! {

/// A search for the shortest queue length that counts as near full. Lengths are tried one at a
/// time; whether a length reaches the configured ratio is for the caller to say. Lengths from
/// the capacity on are full, so the search covers those below it.
#[derive(Clone, Copy, Debug, PartialEq, Eq, Structural)]
pub struct NearFullSearch {
    low: usize,
    high: usize,
}

impl NearFullSearch {
    /// All lengths below this are known not to reach the ratio.
    pub closed spec fn low(&self) -> int {
        self.low as int
    }

    /// All lengths from this on, below the capacity, are known to reach the ratio.
    pub closed spec fn high(&self) -> int {
        self.high as int
    }

    /// Starts a search for a queue of the given capacity.
    pub fn new(capacity: usize) -> (r: Self)
        ensures
            r.low() == 0,
            r.high() == capacity,
    {
        NearFullSearch { low: 0, high: capacity }
    }

    /// The next length to try, or nothing where the search is done.
    pub fn probe(&self) -> (r: Option<usize>)
        ensures
            match r {
                Some(len) => self.low() <= len < self.high() && len == self.low() + (self.high()
                    - self.low()) / 2,
                None => self.low() >= self.high(),
            },
    {
        if self.low < self.high {
            Some(self.low + (self.high - self.low) / 2)
        } else {
            None
        }
    }

    /// Takes the answer for the length that `probe` gave.
    pub fn answer(&mut self, len: usize, reached: bool)
        requires
            old(self).low() <= len < old(self).high(),
        ensures
            final(self).low() == if reached {
                old(self).low()
            } else {
                len + 1
            },
            final(self).high() == if reached {
                len as int
            } else {
                old(self).high()
            },
    {
        if reached {
            self.high = len;
        } else {
            self.low = len + 1;
        }
    }

    /// The length found so far.
    pub fn found(&self) -> (r: usize)
        ensures
            r == self.high(),
    {
        self.high
    }
}

/// Whether the bounds of a search agree with `reaches` on the lengths below `capacity`.
pub open spec fn search_agrees(
    low: int,
    high: int,
    capacity: int,
    reaches: spec_fn(int) -> bool,
) -> bool {
    &&& 0 <= low <= high <= capacity
    &&& forall|len: int| 0 <= len < low ==> !#[trigger] reaches(len)
    &&& forall|len: int| high <= len < capacity ==> #[trigger] reaches(len)
}

/// Where longer queues never reach less, every answer narrows the search and keeps it right; and
/// a finished search has found the length from which the ratio is reached.
pub proof fn lemma_near_full_search(
    low: int,
    high: int,
    capacity: int,
    reaches: spec_fn(int) -> bool,
    len: int,
)
    requires
        search_agrees(low, high, capacity, reaches),
        forall|a: int, b: int|
            0 <= a <= b < capacity && #[trigger] reaches(a) ==> #[trigger] reaches(b),
    ensures
        search_agrees(0, capacity, capacity, reaches),
        low <= len < high && reaches(len) ==> search_agrees(low, len, capacity, reaches),
        low <= len < high && !reaches(len) ==> search_agrees(len + 1, high, capacity, reaches),
        low == high && 0 <= len < capacity ==> (reaches(len) <==> len >= high),
{
    if low <= len < high && !reaches(len) {
        assert forall|l: int| 0 <= l < len + 1 implies !#[trigger] reaches(l) by {
            if reaches(l) {
                assert(reaches(len));
            }
        }
    }
}

/// The status of a sensor's queue by its present length alone.
pub open spec fn current_status(
    sensor_id: Seq<char>,
    current_len: usize,
    peak_len: usize,
    capacity: usize,
    near_full_len: usize,
) -> StatusView {
    let full = capacity > 0 && current_len >= capacity;
    StatusView {
        sensor_id,
        current_len,
        capacity,
        peak_len,
        near_full: capacity > 0 && !full && current_len >= near_full_len,
        full,
    }
}

/// The status of a sensor's queue by its present or its peak length, whichever is worse.
pub open spec fn worst_status(
    sensor_id: Seq<char>,
    current_len: usize,
    peak_len: usize,
    capacity: usize,
    near_full_len: usize,
) -> StatusView {
    let full = capacity > 0 && (current_len >= capacity || peak_len >= capacity);
    StatusView {
        sensor_id,
        current_len,
        capacity,
        peak_len,
        near_full: capacity > 0 && !full && (current_len >= near_full_len || peak_len
            >= near_full_len),
        full,
    }
}

/// The larger of two lengths.
pub open spec fn larger(a: usize, b: usize) -> usize {
    if a >= b {
        a
    } else {
        b
    }
}

/// The length that a warning names where the present length decides.
pub open spec fn current_depth() -> spec_fn(StatusView) -> usize {
    |s: StatusView| s.current_len
}

/// The length that a warning names where the worse of present and peak length decides.
pub open spec fn worst_depth(near_full_len: usize) -> spec_fn(StatusView) -> usize {
    |s: StatusView|
        if s.full {
            larger(s.current_len, s.peak_len)
        } else if s.current_len >= near_full_len {
            s.current_len
        } else {
            s.peak_len
        }
}

/// The warning for one sensor, if its status calls for one.
pub open spec fn warning_of(s: StatusView, depth: usize) -> Option<Seq<char>> {
    let place = "Sensor "@ + s.sensor_id;
    let fill = decimal(depth as nat) + "/"@ + decimal(s.capacity as nat) + ")"@;
    if s.full {
        Some(place + " internal buffer is FULL ("@ + fill)
    } else if s.near_full {
        Some(place + " internal buffer is near full ("@ + fill)
    } else {
        None
    }
}

/// The warnings for a list of sensors, in order.
pub open spec fn warnings_of(
    rows: Seq<StatusView>,
    depth: spec_fn(StatusView) -> usize,
) -> Seq<Seq<char>>
    decreases rows.len(),
{
    if rows.len() == 0 {
        Seq::empty()
    } else {
        let init = warnings_of(rows.drop_last(), depth);
        match warning_of(rows.last(), depth(rows.last())) {
            Some(w) => init.push(w),
            None => init,
        }
    }
}

/// A snapshot of these sensors.
pub open spec fn summarized(
    rows: Seq<StatusView>,
    depth: spec_fn(StatusView) -> usize,
) -> TelemetryView {
    TelemetryView {
        sensors: rows,
        any_near_full: exists|k: int| 0 <= k < rows.len() && (#[trigger] rows[k]).near_full,
        any_full: exists|k: int| 0 <= k < rows.len() && (#[trigger] rows[k]).full,
        warnings: warnings_of(rows, depth),
    }
}

/// A snapshot without sensors.
pub fn empty_telemetry() -> (r: BufferTelemetrySnapshot)
    ensures
        r@ == (TelemetryView {
            sensors: Seq::empty(),
            any_near_full: false,
            any_full: false,
            warnings: Seq::empty(),
        }),
        forall|depth: spec_fn(StatusView) -> usize| r@ == #[trigger] summarized(Seq::empty(), depth),
{
    let r = BufferTelemetrySnapshot {
        sensors: Vec::new(),
        any_near_full: false,
        any_full: false,
        warnings: Vec::new(),
    };
    proof {
        assert(r@.sensors =~= Seq::empty());
        assert(r@.warnings =~= Seq::empty());
        assert forall|depth: spec_fn(StatusView) -> usize| r@ == #[trigger] summarized(
            Seq::empty(),
            depth,
        ) by {
            assert(warnings_of(Seq::empty(), depth) =~= Seq::empty());
        }
    }
    r
}

/// Writes a warning.
fn warning_text(sensor_id: &String, lead: &str, depth: usize, capacity: usize) -> (r: String)
    ensures
        r@ == "Sensor "@ + sensor_id@ + lead@ + (decimal(depth as nat) + "/"@ + decimal(
            capacity as nat,
        ) + ")"@),
{
    let mut r = "Sensor ".to_string();
    r.append(sensor_id.as_str());
    r.append(lead);
    push_decimal(&mut r, depth as u64);
    r.append("/");
    push_decimal(&mut r, capacity as u64);
    r.append(")");
    assert(r@ =~= "Sensor "@ + sensor_id@ + lead@ + (decimal(depth as nat) + "/"@ + decimal(
        capacity as nat,
    ) + ")"@));
    r
}

/// Adds a sensor to a snapshot, with its warning.
fn add_status(
    out: &mut BufferTelemetrySnapshot,
    status: SensorBufferStatus,
    depth: usize,
    Ghost(rule): Ghost<spec_fn(StatusView) -> usize>,
)
    requires
        old(out)@ == summarized(old(out)@.sensors, rule),
        depth == rule(status@),
        !(status.full && status.near_full),
    ensures
        final(out)@ == summarized(old(out)@.sensors.push(status@), rule),
{
    let ghost rows = out@.sensors;
    let ghost s = status@;
    let ghost all = rows.push(s);
    proof {
        assert(all.drop_last() =~= rows);
    }
    let ghost warned = texts(out.warnings@);
    if status.full {
        out.any_full = true;
        let w = warning_text(
            &status.sensor_id,
            " internal buffer is FULL (",
            depth,
            status.capacity,
        );
        out.warnings.push(w);
        assert(texts(out.warnings@) =~= warned.push(w@));
    } else if status.near_full {
        out.any_near_full = true;
        let w = warning_text(
            &status.sensor_id,
            " internal buffer is near full (",
            depth,
            status.capacity,
        );
        out.warnings.push(w);
        assert(texts(out.warnings@) =~= warned.push(w@));
    }
    out.sensors.push(status);
    proof {
        assert(out@.sensors =~= all);
        assert forall|k: int| 0 <= k < rows.len() implies all[k] == #[trigger] rows[k] by {}
        assert(all[rows.len() as int] == s);
        if out.any_full {
            if s.full {
                assert(all[rows.len() as int].full);
            } else {
                let k = choose|k: int| 0 <= k < rows.len() && (#[trigger] rows[k]).full;
                assert(all[k].full);
            }
        }
        if out.any_near_full {
            if s.near_full {
                assert(all[rows.len() as int].near_full);
            } else {
                let k = choose|k: int| 0 <= k < rows.len() && (#[trigger] rows[k]).near_full;
                assert(all[k].near_full);
            }
        }
        assert(out.any_full == summarized(all, rule).any_full);
        assert(out.any_near_full == summarized(all, rule).any_near_full);
        assert(out@.warnings == warnings_of(all, rule));
    }
}

/// Adds a sensor whose present length decides.
pub(crate) fn add_current_status(
    out: &mut BufferTelemetrySnapshot,
    sensor_id: &String,
    current_len: usize,
    peak_len: usize,
    capacity: usize,
    near_full_len: usize,
)
    requires
        old(out)@ == summarized(old(out)@.sensors, current_depth()),
    ensures
        final(out)@ == summarized(
            old(out)@.sensors.push(
                current_status(sensor_id@, current_len, peak_len, capacity, near_full_len),
            ),
            current_depth(),
        ),
{
    let full = current_len >= capacity && capacity > 0;
    let near_full = !full && capacity > 0 && current_len >= near_full_len;
    let status = SensorBufferStatus {
        sensor_id: sensor_id.clone(),
        current_len,
        capacity,
        peak_len,
        near_full,
        full,
    };
    add_status(out, status, current_len, Ghost(current_depth()));
}

/// Adds a sensor for which the worse of present and peak length decides.
fn add_worst_status(
    out: &mut BufferTelemetrySnapshot,
    sensor_id: &String,
    current_len: usize,
    peak_len: usize,
    capacity: usize,
    near_full_len: usize,
)
    requires
        old(out)@ == summarized(old(out)@.sensors, worst_depth(near_full_len)),
    ensures
        final(out)@ == summarized(
            old(out)@.sensors.push(
                worst_status(sensor_id@, current_len, peak_len, capacity, near_full_len),
            ),
            worst_depth(near_full_len),
        ),
{
    let full = (current_len >= capacity && capacity > 0) || (peak_len >= capacity && capacity > 0);
    let near_full = !full && capacity > 0 && (current_len >= near_full_len || peak_len
        >= near_full_len);
    let depth = if full {
        if current_len >= peak_len {
            current_len
        } else {
            peak_len
        }
    } else if current_len >= near_full_len {
        current_len
    } else {
        peak_len
    };
    let status = SensorBufferStatus {
        sensor_id: sensor_id.clone(),
        current_len,
        capacity,
        peak_len,
        near_full,
        full,
    };
    add_status(out, status, depth, Ghost(worst_depth(near_full_len)));
}

/// Whether any of the frames has a queue depth for the sensor.
pub open spec fn frames_know(f: Seq<FrameView>, id: Seq<char>) -> bool {
    exists|k: int|
        0 <= k < f.len() && (#[trigger] f[k]).sensor_internal_buffer_max.contains_key(id)
}

/// The largest queue depth of the sensor in any of the frames, or 0.
pub open spec fn frame_peak(f: Seq<FrameView>, id: Seq<char>) -> usize
    decreases f.len(),
{
    if f.len() == 0 {
        0
    } else {
        let rest = frame_peak(f.drop_last(), id);
        if f.last().sensor_internal_buffer_max.contains_key(id) {
            larger(rest, f.last().sensor_internal_buffer_max[id])
        } else {
            rest
        }
    }
}

/// The first row of a sensor.
pub open spec fn row_of(rows: Seq<StatusView>, id: Seq<char>) -> Option<StatusView>
    decreases rows.len(),
{
    if rows.len() == 0 {
        None
    } else if rows[0].sensor_id == id {
        Some(rows[0])
    } else {
        row_of(rows.skip(1), id)
    }
}

/// The present length that the rows give for a sensor.
pub open spec fn row_current(rows: Seq<StatusView>, id: Seq<char>) -> usize {
    match row_of(rows, id) {
        Some(s) => s.current_len,
        None => 0,
    }
}

/// The peak length that the rows give for a sensor.
pub open spec fn row_peak(rows: Seq<StatusView>, id: Seq<char>) -> usize {
    match row_of(rows, id) {
        Some(s) => s.peak_len,
        None => 0,
    }
}

/// The identifiers of a list of rows.
pub open spec fn row_ids(rows: Seq<StatusView>) -> Seq<Seq<char>> {
    rows.map_values(|s: StatusView| s.sensor_id)
}

/// Whether `out` joins live rows with the depths recorded in frames: one row for each sensor
/// that either knows, by ascending identifier, with the larger of the two peaks.
pub open spec fn joins(
    out: TelemetryView,
    base: Seq<StatusView>,
    f: Seq<FrameView>,
    capacity: usize,
    near_full_len: usize,
) -> bool {
    &&& out == summarized(out.sensors, worst_depth(near_full_len))
    &&& ids_ascending(row_ids(out.sensors))
    &&& forall|id: Seq<char>| #[trigger]
        row_ids(out.sensors).contains(id) <==> row_of(base, id) is Some || frames_know(f, id)
    &&& forall|k: int|
        0 <= k < out.sensors.len() ==> #[trigger] out.sensors[k] == worst_status(
            out.sensors[k].sensor_id,
            row_current(base, out.sensors[k].sensor_id),
            larger(
                row_peak(base, out.sensors[k].sensor_id),
                frame_peak(f, out.sensors[k].sensor_id),
            ),
            capacity,
            near_full_len,
        )
}

/// Takes the depths of one frame into the peaks.
fn add_frame_peaks(peaks: &mut IdMap<usize>, depths: &IdMap<usize>)
    ensures
        forall|id: Seq<char>|
            #[trigger] final(peaks)@.contains_key(id) <==> old(peaks)@.contains_key(id)
                || depths@.contains_key(id),
        forall|id: Seq<char>|
            final(peaks)@.contains_key(id) ==> #[trigger] final(peaks)@[id] == larger(
                if old(peaks)@.contains_key(id) {
                    old(peaks)@[id]
                } else {
                    0
                },
                if depths@.contains_key(id) {
                    depths@[id]
                } else {
                    0
                },
            ),
{
    let n = depths.len();
    let ghost start = peaks@;
    let ghost ids = depths.ids();
    let mut i: usize = 0;
    proof {
        assert(!exists|id: Seq<char>| ids.take(0).contains(id));
    }
    while i < n
        invariant
            i <= n,
            n == ids.len(),
            ids == depths.ids(),
            n == depths.values().len(),
            forall|j: int|
                0 <= j < n ==> depths@.contains_key(#[trigger] ids[j]) && depths@[ids[j]]
                    == depths.values()[j],
            forall|id: Seq<char>|
                #[trigger] peaks@.contains_key(id) <==> start.contains_key(id) || ids.take(
                    i as int,
                ).contains(id),
            forall|id: Seq<char>|
                peaks@.contains_key(id) ==> #[trigger] peaks@[id] == larger(
                    if start.contains_key(id) {
                        start[id]
                    } else {
                        0
                    },
                    if ids.take(i as int).contains(id) {
                        depths@[id]
                    } else {
                        0
                    },
                ),
        decreases n - i,
    {
        let id = depths.id_at(i);
        let v = *depths.value_at(i);
        let ghost before = peaks@;
        let ghost key = id@;
        proof {
            assert(depths@.contains_key(ids[i as int]));
            assert forall|x: Seq<char>| #[trigger] ids.take(i + 1).contains(x) <==> ids.take(
                i as int,
            ).contains(x) || x == key by {
                lemma_take_one_more(ids, i as int, x);
            }
        }
        let known = match peaks.get(id.as_str()) {
            Some(p) => *p,
            None => 0,
        };
        if known >= v {
            peaks.insert(id.clone(), known);
        } else {
            peaks.insert(id.clone(), v);
        }
        i = i + 1;
    }
    proof {
        assert(ids.take(n as int) =~= ids);
    }
}

proof fn lemma_frames_know_push(f: Seq<FrameView>, k: int, id: Seq<char>)
    requires
        0 <= k < f.len(),
    ensures
        frames_know(f.take(k + 1), id) <==> frames_know(f.take(k), id)
            || f[k].sensor_internal_buffer_max.contains_key(id),
        f.take(k + 1).drop_last() == f.take(k),
        f.take(k + 1).last() == f[k],
{
    let a = f.take(k);
    let b = f.take(k + 1);
    assert(b.drop_last() =~= a);
    if frames_know(b, id) {
        let j = choose|j: int|
            0 <= j < b.len() && (#[trigger] b[j]).sensor_internal_buffer_max.contains_key(id);
        if j < k {
            assert(a[j] == b[j]);
        }
    }
    if frames_know(a, id) {
        let j = choose|j: int|
            0 <= j < a.len() && (#[trigger] a[j]).sensor_internal_buffer_max.contains_key(id);
        assert(b[j] == a[j]);
    }
    if f[k].sensor_internal_buffer_max.contains_key(id) {
        assert(b[k] == f[k]);
    }
}

proof fn lemma_unknown_peak_is_zero(f: Seq<FrameView>, id: Seq<char>)
    ensures
        !frames_know(f, id) ==> frame_peak(f, id) == 0,
    decreases f.len(),
{
    if f.len() > 0 && !frames_know(f, id) {
        let init = f.drop_last();
        if frames_know(init, id) {
            let j = choose|j: int|
                0 <= j < init.len() && (
                #[trigger] init[j]).sensor_internal_buffer_max.contains_key(id);
            assert(f[j] == init[j]);
        }
        assert(!f[f.len() - 1].sensor_internal_buffer_max.contains_key(id));
        lemma_unknown_peak_is_zero(init, id);
    }
}

/// The largest depth of every sensor that a frame knows.
fn frame_peaks(frames: &[AggregatedFrame]) -> (peaks: IdMap<usize>)
    ensures
        forall|id: Seq<char>|
            #[trigger] peaks@.contains_key(id) <==> frames_know(frame_views(frames@), id),
        forall|id: Seq<char>|
            peaks@.contains_key(id) ==> #[trigger] peaks@[id] == frame_peak(
                frame_views(frames@),
                id,
            ),
{
    let mut peaks: IdMap<usize> = IdMap::new();
    let ghost f = frame_views(frames@);
    let mut k: usize = 0;
    while k < frames.len()
        invariant
            k <= frames.len(),
            f == frame_views(frames@),
            forall|id: Seq<char>|
                #[trigger] peaks@.contains_key(id) <==> frames_know(f.take(k as int), id),
            forall|id: Seq<char>|
                peaks@.contains_key(id) ==> #[trigger] peaks@[id] == frame_peak(
                    f.take(k as int),
                    id,
                ),
        decreases frames.len() - k,
    {
        let ghost before = peaks@;
        add_frame_peaks(&mut peaks, &frames[k].sensor_internal_buffer_max);
        proof {
            let depths = f[k as int].sensor_internal_buffer_max;
            assert(depths == frames@[k as int].sensor_internal_buffer_max@);
            assert forall|id: Seq<char>|
                #[trigger] peaks@.contains_key(id) <==> frames_know(f.take(k + 1), id) by {
                lemma_frames_know_push(f, k as int, id);
            }
            assert forall|id: Seq<char>| peaks@.contains_key(id) implies #[trigger] peaks@[id]
                == frame_peak(f.take(k + 1), id) by {
                lemma_frames_know_push(f, k as int, id);
                lemma_unknown_peak_is_zero(f.take(k as int), id);
                if before.contains_key(id) {
                    assert(before[id] == frame_peak(f.take(k as int), id));
                }
            }
        }
        k = k + 1;
    }
    proof {
        assert(f.take(k as int) =~= f);
    }
    peaks
}

proof fn lemma_row_of(rows: Seq<StatusView>, id: Seq<char>, i: int)
    requires
        0 <= i <= rows.len(),
        forall|j: int| 0 <= j < i ==> (#[trigger] rows[j]).sensor_id != id,
    ensures
        row_of(rows, id) == row_of(rows.skip(i), id),
    decreases i,
{
    if i == 0 {
        assert(rows.skip(0) =~= rows);
    } else {
        let rest = rows.skip(1);
        assert(rows[0].sensor_id != id);
        assert forall|j: int| 0 <= j < i - 1 implies (#[trigger] rest[j]).sensor_id != id by {
            assert(rest[j] == rows[j + 1]);
        }
        lemma_row_of(rest, id, i - 1);
        assert(rest.skip(i - 1) =~= rows.skip(i));
    }
}

proof fn lemma_row_known(rows: Seq<StatusView>, id: Seq<char>)
    ensures
        row_of(rows, id) is Some <==> row_ids(rows).contains(id),
    decreases rows.len(),
{
    if rows.len() > 0 {
        let rest = rows.skip(1);
        lemma_row_known(rest, id);
        if row_ids(rows).contains(id) {
            let j = choose|j: int| 0 <= j < rows.len() && row_ids(rows)[j] == id;
            if j > 0 {
                assert(row_ids(rest)[j - 1] == id);
            }
        }
        if row_ids(rest).contains(id) {
            let j = choose|j: int| 0 <= j < rest.len() && row_ids(rest)[j] == id;
            assert(row_ids(rows)[j + 1] == id);
        }
        if rows[0].sensor_id == id {
            assert(row_ids(rows)[0] == id);
        }
    }
}

/// The lengths in the first row of a sensor, or zeros.
fn find_row(rows: &Vec<SensorBufferStatus>, id: &String) -> (r: (usize, usize))
    ensures
        r.0 == row_current(status_views(rows@), id@),
        r.1 == row_peak(status_views(rows@), id@),
{
    let ghost v = status_views(rows@);
    let mut i: usize = 0;
    while i < rows.len()
        invariant
            i <= rows.len(),
            v == status_views(rows@),
            forall|j: int| 0 <= j < i ==> (#[trigger] v[j]).sensor_id != id@,
        decreases rows.len() - i,
    {
        assert(v[i as int] == rows@[i as int]@);
        if rows[i].sensor_id == *id {
            proof {
                lemma_row_of(v, id@, i as int);
                assert(v.skip(i as int)[0] == v[i as int]);
            }
            return (rows[i].current_len, rows[i].peak_len);
        }
        i = i + 1;
    }
    proof {
        lemma_row_of(v, id@, i as int);
    }
    (0, 0)
}

/// Joins the live queue lengths with the peaks recorded in the frames.
pub fn merge_buffer_telemetry_with_frames(
    base: BufferTelemetrySnapshot,
    frames: &[AggregatedFrame],
    capacity: usize,
    near_full_len: usize,
) -> (r: BufferTelemetrySnapshot)
    ensures
        joins(r@, base@.sensors, frame_views(frames@), capacity, near_full_len),
{
    let ghost rows = base@.sensors;
    let ghost f = frame_views(frames@);
    let mut peaks = frame_peaks(frames);
    let ghost from_frames = peaks@;
    let mut i: usize = 0;
    proof {
        assert(row_ids(rows).take(0) =~= Seq::empty());
    }
    while i < base.sensors.len()
        invariant
            i <= base.sensors.len(),
            rows == status_views(base.sensors@),
            forall|id: Seq<char>|
                #[trigger] peaks@.contains_key(id) <==> from_frames.contains_key(id) || row_ids(
                    rows,
                ).take(i as int).contains(id),
            forall|id: Seq<char>|
                peaks@.contains_key(id) ==> #[trigger] peaks@[id] == if from_frames.contains_key(
                    id,
                ) {
                    from_frames[id]
                } else {
                    0
                },
        decreases base.sensors.len() - i,
    {
        let ghost key = base.sensors@[i as int].sensor_id@;
        proof {
            let ids = row_ids(rows);
            assert(ids[i as int] == key);
            assert forall|x: Seq<char>| #[trigger] ids.take(i + 1).contains(x) <==> ids.take(
                i as int,
            ).contains(x) || x == key by {
                lemma_take_one_more(ids, i as int, x);
            }
        }
        if !peaks.contains_key(base.sensors[i].sensor_id.as_str()) {
            peaks.insert(base.sensors[i].sensor_id.clone(), 0);
        }
        i = i + 1;
    }
    proof {
        assert(row_ids(rows).take(i as int) =~= row_ids(rows));
        assert forall|id: Seq<char>| peaks@.contains_key(id) implies #[trigger] peaks@[id]
            == frame_peak(f, id) by {
            lemma_unknown_peak_is_zero(f, id);
        }
    }
    let mut out = empty_telemetry();
    let n = peaks.len();
    let ghost ids = peaks.ids();
    let mut k: usize = 0;
    while k < n
        invariant
            k <= n,
            n == ids.len(),
            ids == peaks.ids(),
            n == peaks.values().len(),
            forall|j: int|
                0 <= j < n ==> peaks@.contains_key(#[trigger] ids[j]) && peaks@[ids[j]]
                    == peaks.values()[j],
            rows == status_views(base.sensors@),
            forall|id: Seq<char>|
                peaks@.contains_key(id) ==> #[trigger] peaks@[id] == frame_peak(f, id),
            out@ == summarized(out@.sensors, worst_depth(near_full_len)),
            row_ids(out@.sensors) == ids.take(k as int),
            forall|j: int|
                0 <= j < out@.sensors.len() ==> #[trigger] out@.sensors[j] == worst_status(
                    out@.sensors[j].sensor_id,
                    row_current(rows, out@.sensors[j].sensor_id),
                    larger(
                        row_peak(rows, out@.sensors[j].sensor_id),
                        frame_peak(f, out@.sensors[j].sensor_id),
                    ),
                    capacity,
                    near_full_len,
                ),
        decreases n - k,
    {
        let id = peaks.id_at(k);
        let frame_peak_len = *peaks.value_at(k);
        let (current_len, reader_peak) = find_row(&base.sensors, id);
        let peak_len = if reader_peak >= frame_peak_len {
            reader_peak
        } else {
            frame_peak_len
        };
        let ghost before = out@.sensors;
        proof {
            assert(peaks@.contains_key(ids[k as int]));
            assert(peaks@[id@] == frame_peak(f, id@));
        }
        add_worst_status(&mut out, id, current_len, peak_len, capacity, near_full_len);
        proof {
            let s = worst_status(id@, current_len, peak_len, capacity, near_full_len);
            assert(out@.sensors == before.push(s));
            assert(row_ids(out@.sensors) =~= row_ids(before).push(id@));
            assert(ids.take(k as int).push(id@) =~= ids.take(k + 1));
            assert forall|j: int| 0 <= j < out@.sensors.len() implies #[trigger] out@.sensors[j]
                == worst_status(
                out@.sensors[j].sensor_id,
                row_current(rows, out@.sensors[j].sensor_id),
                larger(
                    row_peak(rows, out@.sensors[j].sensor_id),
                    frame_peak(f, out@.sensors[j].sensor_id),
                ),
                capacity,
                near_full_len,
            ) by {
                if j < before.len() {
                    assert(out@.sensors[j] == before[j]);
                }
            }
        }
        k = k + 1;
    }
    proof {
        assert(ids.take(n as int) =~= ids);
        assert forall|id: Seq<char>| #[trigger]
            row_ids(out@.sensors).contains(id) <==> row_of(rows, id) is Some || frames_know(
            f,
            id,
        ) by {
            lemma_row_known(rows, id);
            assert(peaks@.contains_key(id) <==> ids.contains(id));
        }
    }
    out
}

/// Live rows, frames, capacity and near-full length determine the joined snapshot.
pub proof fn lemma_joins_unique(
    a: TelemetryView,
    b: TelemetryView,
    base: Seq<StatusView>,
    f: Seq<FrameView>,
    capacity: usize,
    near_full_len: usize,
)
    requires
        joins(a, base, f, capacity, near_full_len),
        joins(b, base, f, capacity, near_full_len),
    ensures
        a == b,
{
    assert forall|id: Seq<char>| #[trigger] row_ids(a.sensors).contains(id) <==> row_ids(
        b.sensors,
    ).contains(id) by {}
    lemma_ascending_ids_unique(row_ids(a.sensors), row_ids(b.sensors));
    assert(row_ids(a.sensors).len() == a.sensors.len());
    assert(row_ids(b.sensors).len() == b.sensors.len());
    assert forall|k: int| 0 <= k < a.sensors.len() implies a.sensors[k] == b.sensors[k] by {
        assert(row_ids(a.sensors)[k] == a.sensors[k].sensor_id);
        assert(row_ids(b.sensors)[k] == b.sensors[k].sensor_id);
    }
    assert(a.sensors =~= b.sensors);
}

/// No sensor is both full and near full; the snapshot says that one is full, or near full,
/// exactly where a row does; and there is one warning for each sensor that is either.
pub proof fn lemma_joined_flags(
    a: TelemetryView,
    base: Seq<StatusView>,
    f: Seq<FrameView>,
    capacity: usize,
    near_full_len: usize,
)
    requires
        joins(a, base, f, capacity, near_full_len),
    ensures
        forall|k: int|
            0 <= k < a.sensors.len() ==> !((#[trigger] a.sensors[k]).full
                && a.sensors[k].near_full),
        a.any_full <==> exists|k: int| 0 <= k < a.sensors.len() && (#[trigger] a.sensors[k]).full,
        a.any_near_full <==> exists|k: int|
            0 <= k < a.sensors.len() && (#[trigger] a.sensors[k]).near_full,
        a.warnings.len() == a.sensors.filter(|s: StatusView| s.full || s.near_full).len(),
{
    lemma_warning_count(a.sensors, worst_depth(near_full_len));
}

proof fn lemma_warning_count(rows: Seq<StatusView>, depth: spec_fn(StatusView) -> usize)
    ensures
        warnings_of(rows, depth).len() == rows.filter(
            |s: StatusView| s.full || s.near_full,
        ).len(),
    decreases rows.len(),
{
    reveal(Seq::filter);
    if rows.len() > 0 {
        lemma_warning_count(rows.drop_last(), depth);
    }
}

/// The larger of two lengths is one of them, and neither is larger.
pub proof fn lemma_larger(a: usize, b: usize)
    ensures
        larger(a, b) >= a,
        larger(a, b) >= b,
        larger(a, b) == a || larger(a, b) == b,
{
}

/// A queue's status by its present length: it is full from its capacity on, near full from the
/// near-full length on and below its capacity; a queue without capacity is neither.
pub proof fn lemma_current_status(
    sensor_id: Seq<char>,
    current_len: usize,
    peak_len: usize,
    capacity: usize,
    near_full_len: usize,
)
    ensures
        ({
            let s = current_status(sensor_id, current_len, peak_len, capacity, near_full_len);
            &&& s.sensor_id == sensor_id
            &&& s.current_len == current_len
            &&& s.peak_len == peak_len
            &&& s.capacity == capacity
            &&& s.full <==> 0 < capacity <= current_len
            &&& s.near_full <==> near_full_len <= current_len < capacity
        }),
{
}

/// A queue's status by its present and its peak length: the larger of the two decides.
pub proof fn lemma_worst_status(
    sensor_id: Seq<char>,
    current_len: usize,
    peak_len: usize,
    capacity: usize,
    near_full_len: usize,
)
    ensures
        ({
            let s = worst_status(sensor_id, current_len, peak_len, capacity, near_full_len);
            let most = if current_len >= peak_len {
                current_len
            } else {
                peak_len
            };
            &&& s.sensor_id == sensor_id
            &&& s.current_len == current_len
            &&& s.peak_len == peak_len
            &&& s.capacity == capacity
            &&& s.full <==> 0 < capacity <= most
            &&& s.near_full <==> near_full_len <= most < capacity
        }),
{
}

/// A sensor has a warning exactly where its queue is full or near full. The warning says which,
/// the length in question and the capacity.
pub proof fn lemma_warning_says_what_is_wrong(s: StatusView, depth: usize)
    ensures
        s.full ==> warning_of(s, depth) == Some(
            "Sensor "@ + s.sensor_id + " internal buffer is FULL ("@ + (decimal(depth as nat) + "/"@
                + decimal(s.capacity as nat) + ")"@),
        ),
        !s.full && s.near_full ==> warning_of(s, depth) == Some(
            "Sensor "@ + s.sensor_id + " internal buffer is near full ("@ + (decimal(depth as nat)
                + "/"@ + decimal(s.capacity as nat) + ")"@),
        ),
        !s.full && !s.near_full ==> warning_of(s, depth) is None,
{
}

/// The length that a warning names: the present one where that decides alone; else, for a full
/// queue, the larger of present and peak length, and for one near full the present length where
/// that is long enough and the peak otherwise.
pub proof fn lemma_warned_depth(s: StatusView, near_full_len: usize)
    ensures
        current_depth()(s) == s.current_len,
        s.full && s.current_len >= s.peak_len ==> worst_depth(near_full_len)(s) == s.current_len,
        s.full && s.current_len < s.peak_len ==> worst_depth(near_full_len)(s) == s.peak_len,
        !s.full && s.current_len >= near_full_len ==> worst_depth(near_full_len)(s)
            == s.current_len,
        !s.full && s.current_len < near_full_len ==> worst_depth(near_full_len)(s) == s.peak_len,
{
}

/// The warnings are one for each sensor whose queue is full or near full, in order. It gives the
/// sensors.
pub proof fn lemma_warning_per_sensor(
    rows: Seq<StatusView>,
    depth: spec_fn(StatusView) -> usize,
) -> (at: Seq<int>)
    ensures
        at.len() == warnings_of(rows, depth).len(),
        forall|k: int|
            0 <= k < at.len() ==> 0 <= #[trigger] at[k] < rows.len() && (rows[at[k]].full
                || rows[at[k]].near_full) && Some(warnings_of(rows, depth)[k]) == warning_of(
                rows[at[k]],
                depth(rows[at[k]]),
            ),
        forall|i: int|
            0 <= i < rows.len() && ((#[trigger] rows[i]).full || rows[i].near_full) ==> at.contains(
                i,
            ),
        forall|a: int, b: int| 0 <= a < b < at.len() ==> #[trigger] at[a] < #[trigger] at[b],
    decreases rows.len(),
{
    if rows.len() == 0 {
        Seq::empty()
    } else {
        let init = rows.drop_last();
        let last = rows.len() - 1;
        let before = lemma_warning_per_sensor(init, depth);
        let marked = rows[last].full || rows[last].near_full;
        let at = if marked {
            before.push(last)
        } else {
            before
        };
        let w = warnings_of(rows, depth);
        assert forall|k: int| 0 <= k < at.len() implies 0 <= #[trigger] at[k] < rows.len() && (
        rows[at[k]].full || rows[at[k]].near_full) && Some(w[k]) == warning_of(
            rows[at[k]],
            depth(rows[at[k]]),
        ) by {
            if k < before.len() {
                assert(at[k] == before[k]);
                assert(init[before[k]] == rows[before[k]]);
            }
        }
        assert forall|i: int|
            0 <= i < rows.len() && ((#[trigger] rows[i]).full || rows[i].near_full) implies at.contains(
            i,
        ) by {
            if i < last {
                assert(init[i] == rows[i]);
                assert(before.contains(i));
                let k = choose|k: int| 0 <= k < before.len() && before[k] == i;
                assert(at[k] == i);
            } else {
                assert(at[at.len() - 1] == i);
            }
        }
        assert forall|a: int, b: int| 0 <= a < b < at.len() implies #[trigger] at[a]
            < #[trigger] at[b] by {
            assert(at[a] == before[a]);
            if b < before.len() {
                assert(at[b] == before[b]);
            }
        }
        at
    }
}

/// A snapshot has the rows it is made of; it says that a queue is full, or near full, exactly where
/// a row says so.
pub proof fn lemma_snapshot_of_rows(rows: Seq<StatusView>, depth: spec_fn(StatusView) -> usize)
    ensures
        summarized(rows, depth).sensors == rows,
        summarized(rows, depth).warnings == warnings_of(rows, depth),
        summarized(rows, depth).any_full <==> exists|k: int|
            0 <= k < rows.len() && (#[trigger] rows[k]).full,
        summarized(rows, depth).any_near_full <==> exists|k: int|
            0 <= k < rows.len() && (#[trigger] rows[k]).near_full,
{
}

/// The peak that frames give for a sensor is the largest depth that any of them records for it;
/// where none does, it is 0.
pub proof fn lemma_frame_peak_is_largest(f: Seq<FrameView>, id: Seq<char>)
    ensures
        forall|k: int|
            0 <= k < f.len() && (#[trigger] f[k]).sensor_internal_buffer_max.contains_key(id)
                ==> f[k].sensor_internal_buffer_max[id] <= frame_peak(f, id),
        frame_peak(f, id) == 0 || exists|k: int|
            0 <= k < f.len() && (#[trigger] f[k]).sensor_internal_buffer_max.contains_key(id)
                && f[k].sensor_internal_buffer_max[id] == frame_peak(f, id),
        frames_know(f, id) <==> exists|k: int|
            0 <= k < f.len() && (#[trigger] f[k]).sensor_internal_buffer_max.dom().contains(id),
    decreases f.len(),
{
    if frames_know(f, id) {
        let k = choose|k: int|
            0 <= k < f.len() && (#[trigger] f[k]).sensor_internal_buffer_max.contains_key(id);
        assert(f[k].sensor_internal_buffer_max.dom().contains(id));
    }
    if f.len() > 0 {
        let init = f.drop_last();
        let last = f.len() - 1;
        lemma_frame_peak_is_largest(init, id);
        assert(f[last] == f.last());
        assert forall|k: int|
            0 <= k < f.len() && (#[trigger] f[k]).sensor_internal_buffer_max.contains_key(
                id,
            ) implies f[k].sensor_internal_buffer_max[id] <= frame_peak(f, id) by {
            if k < last {
                assert(init[k] == f[k]);
            }
        }
        if frame_peak(f, id) != 0 {
            if f[last].sensor_internal_buffer_max.contains_key(id)
                && f[last].sensor_internal_buffer_max[id] == frame_peak(f, id) {
            } else {
                let k = choose|k: int|
                    0 <= k < init.len() && (
                    #[trigger] init[k]).sensor_internal_buffer_max.contains_key(id)
                        && init[k].sensor_internal_buffer_max[id] == frame_peak(init, id);
                assert(f[k] == init[k]);
            }
        }
    }
}

/// The lengths that rows give for a sensor are those of its first row; where it has none, they are
/// 0.
pub proof fn lemma_first_row_counts(rows: Seq<StatusView>, id: Seq<char>)
    ensures
        forall|k: int|
            0 <= k < rows.len() && (#[trigger] rows[k]).sensor_id == id && (forall|j: int|
                0 <= j < k ==> (#[trigger] rows[j]).sensor_id != id) ==> row_of(rows, id) == Some(
                rows[k],
            ) && row_current(rows, id) == rows[k].current_len && row_peak(rows, id)
                == rows[k].peak_len,
        (forall|k: int| 0 <= k < rows.len() ==> (#[trigger] rows[k]).sensor_id != id) ==> row_of(
            rows,
            id,
        ) is None && row_current(rows, id) == 0 && row_peak(rows, id) == 0,
{
    assert forall|k: int|
        0 <= k < rows.len() && (#[trigger] rows[k]).sensor_id == id && (forall|j: int|
            0 <= j < k ==> (#[trigger] rows[j]).sensor_id != id) implies row_of(rows, id) == Some(
        rows[k],
    ) by {
        lemma_row_of(rows, id, k);
        assert(rows.skip(k)[0] == rows[k]);
    }
    if forall|k: int| 0 <= k < rows.len() ==> (#[trigger] rows[k]).sensor_id != id {
        lemma_row_of(rows, id, rows.len() as int);
    }
}

/// Joined telemetry has one row for each sensor that a live row or a frame knows, by ascending
/// identifier, and no other. Its present length is that of the live row; its peak is no smaller
/// than the live one or any that a frame records, and is one of them, or 0; and it is full, or near
/// full, by the larger of present and peak length.
pub proof fn lemma_joined_rows(
    a: TelemetryView,
    base: Seq<StatusView>,
    f: Seq<FrameView>,
    capacity: usize,
    near_full_len: usize,
)
    requires
        joins(a, base, f, capacity, near_full_len),
    ensures
        forall|id: Seq<char>|
            (exists|k: int| 0 <= k < a.sensors.len() && (#[trigger] a.sensors[k]).sensor_id == id)
                <==> #[trigger] frames_know(f, id) || exists|k: int|
                0 <= k < base.len() && (#[trigger] base[k]).sensor_id == id,
        forall|i: int, j: int|
            0 <= i < j < a.sensors.len() ==> crate::lex::id_less(
                (#[trigger] a.sensors[i]).sensor_id,
                (#[trigger] a.sensors[j]).sensor_id,
            ),
        forall|k: int|
            0 <= k < a.sensors.len() ==> {
                let s = #[trigger] a.sensors[k];
                let live = row_peak(base, s.sensor_id);
                let kept = frame_peak(f, s.sensor_id);
                let most = if s.current_len >= s.peak_len {
                    s.current_len
                } else {
                    s.peak_len
                };
                &&& s.current_len == row_current(base, s.sensor_id)
                &&& s.peak_len >= live && s.peak_len >= kept
                &&& s.peak_len == live || s.peak_len == kept
                &&& s.capacity == capacity
                &&& s.full <==> 0 < capacity <= most
                &&& s.near_full <==> near_full_len <= most < capacity
            },
{
    let ids = row_ids(a.sensors);
    assert forall|id: Seq<char>|
        (exists|k: int| 0 <= k < a.sensors.len() && (#[trigger] a.sensors[k]).sensor_id == id)
            <==> #[trigger] frames_know(f, id) || exists|k: int|
            0 <= k < base.len() && (#[trigger] base[k]).sensor_id == id by {
        lemma_row_known(base, id);
        assert(ids.contains(id) <==> row_of(base, id) is Some || frames_know(f, id));
        if ids.contains(id) {
            let k = choose|k: int| 0 <= k < ids.len() && ids[k] == id;
            assert(a.sensors[k].sensor_id == id);
        }
        if exists|k: int| 0 <= k < a.sensors.len() && (#[trigger] a.sensors[k]).sensor_id == id {
            let k = choose|k: int|
                0 <= k < a.sensors.len() && (#[trigger] a.sensors[k]).sensor_id == id;
            assert(ids[k] == id);
        }
        if row_ids(base).contains(id) {
            let k = choose|k: int| 0 <= k < base.len() && row_ids(base)[k] == id;
            assert(base[k].sensor_id == id);
        }
        if exists|k: int| 0 <= k < base.len() && (#[trigger] base[k]).sensor_id == id {
            let k = choose|k: int| 0 <= k < base.len() && (#[trigger] base[k]).sensor_id == id;
            assert(row_ids(base)[k] == id);
        }
    }
    assert forall|i: int, j: int| 0 <= i < j < a.sensors.len() implies crate::lex::id_less(
        (#[trigger] a.sensors[i]).sensor_id,
        (#[trigger] a.sensors[j]).sensor_id,
    ) by {
        assert(crate::lex::id_less(ids[i], ids[j]));
    }
}

/// The sensors of a list of rows are those of its rows, in order.
pub proof fn lemma_row_ids(rows: Seq<StatusView>)
    ensures
        row_ids(rows).len() == rows.len(),
        forall|k: int| 0 <= k < rows.len() ==> #[trigger] row_ids(rows)[k] == rows[k].sensor_id,
{
}

} // verus!
