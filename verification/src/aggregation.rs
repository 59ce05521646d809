//! Readings are collected in fixed time windows. A window is claimed once it is old enough, and
//! becomes a frame.
use vstd::prelude::*;
use vstd::string::StringExecFns;
use crate::id_map::{ids_ascending, lemma_zipped_one_more, listed, zipped, IdMap};
use crate::rounds::{
    is_run, left_in, lemma_new_engine_has_no_round, lemma_round_extends_run, picked_in, Round,
};
use crate::models::{anomaly_views, AggregatedFrame, Anomaly, AnomalyView, FrameView, SensorStats};
use crate::sensor_buffer::SensorReading;
use crate::telemetry::larger;

verus! {

/// The readings of one window, by sensor.
pub type WindowReadings = Map<Seq<char>, Seq<SensorReading>>;

/// The readings of a window, by sensor.
pub open spec fn lists_of(m: Map<Seq<char>, Vec<SensorReading>>) -> WindowReadings {
    m.map_values(|v: Vec<SensorReading>| v@)
}

/// The start of the window in which a time lies.
pub open spec fn window_start(ts: int, window_ms: int) -> int {
    (ts / window_ms) * window_ms
}

/// Every time lies in exactly one window: the one that starts at a multiple of the window length
/// at or before it, and ends after it.
pub proof fn lemma_time_lies_in_one_window(ts: int, window_ms: int, start: int)
    requires
        0 <= ts,
        0 < window_ms,
        start % window_ms == 0,
    ensures
        window_start(ts, window_ms) % window_ms == 0,
        0 <= window_start(ts, window_ms) <= ts < window_start(ts, window_ms) + window_ms,
        start <= ts < start + window_ms ==> start == window_start(ts, window_ms),
{
    let q = ts / window_ms;
    vstd::arithmetic::div_mod::lemma_fundamental_div_mod(ts, window_ms);
    vstd::arithmetic::div_mod::lemma_mod_multiples_basic(q, window_ms);
    vstd::arithmetic::div_mod::lemma_div_pos_is_pos(ts, window_ms);
    assert(q * window_ms == window_ms * q) by (nonlinear_arith);
    assert(q * window_ms >= 0) by (nonlinear_arith)
        requires
            q >= 0,
            window_ms > 0,
    ;
    if start <= ts < start + window_ms {
        let s = start / window_ms;
        vstd::arithmetic::div_mod::lemma_fundamental_div_mod(start, window_ms);
        assert(window_ms * s == s * window_ms) by (nonlinear_arith);
        assert(s == q) by (nonlinear_arith)
            requires
                s * window_ms <= ts < s * window_ms + window_ms,
                q * window_ms <= ts < q * window_ms + window_ms,
                window_ms > 0,
        ;
    }
}

/// The window length in milliseconds for a configured duration.
pub open spec fn window_length(duration_ms: u128) -> int {
    if duration_ms == 0 {
        1
    } else {
        (duration_ms % 0x1_0000_0000_0000_0000) as int
    }
}

/// How long after its end a window is still kept for late readings.
pub open spec fn grace_length(window_ms: int) -> int {
    if window_ms / 2 >= 50 {
        window_ms / 2
    } else {
        50
    }
}

/// Whether a window is old enough to be claimed.
pub open spec fn is_ready(start: u64, now_ms: u64, window_ms: int) -> bool {
    now_ms >= start + window_ms + grace_length(window_ms)
}

/// The frame identifier that comes `k` after `id` on a 64-bit counter.
pub open spec fn id_after(id: u64, k: int) -> u64 {
    ((id + k) % 0x1_0000_0000_0000_0000) as u64
}

/// A window that still takes readings.
struct PendingWindow {
    start: u64,
    readings: IdMap<Vec<SensorReading>>,
}

/// A window that was taken out to become a frame.
pub struct ClaimedWindow {
    pub frame_id: u64,
    pub window_start: u64,
    pub window_end: u64,
    pub readings: IdMap<Vec<SensorReading>>,
}

/// The starts of a list of windows.
spec fn starts_of(windows: Seq<PendingWindow>) -> Seq<u64> {
    windows.map_values(|w: PendingWindow| w.start)
}

/// Whether windows are in strictly ascending order of their starts.
spec fn windows_ascending(windows: Seq<PendingWindow>) -> bool {
    forall|a: int, b: int|
        0 <= a < b < windows.len() ==> (#[trigger] windows[a]).start < (
        #[trigger] windows[b]).start
}

/// The windows by their starts.
spec fn windows_map(windows: Seq<PendingWindow>) -> Map<u64, WindowReadings> {
    Map::new(
        |s: u64| starts_of(windows).contains(s),
        |s: u64| lists_of(windows[starts_of(windows).index_of(s)].readings@),
    )
}

proof fn lemma_windows_map(windows: Seq<PendingWindow>)
    requires
        windows_ascending(windows),
    ensures
        forall|k: int|
            0 <= k < windows.len() ==> windows_map(windows).contains_key(
                (#[trigger] windows[k]).start,
            ) && windows_map(windows)[windows[k].start] == lists_of(windows[k].readings@),
        forall|s: u64| #[trigger]
            windows_map(windows).contains_key(s) ==> exists|k: int|
                0 <= k < windows.len() && (#[trigger] windows[k]).start == s,
{
    let starts = starts_of(windows);
    assert forall|k: int| 0 <= k < windows.len() implies windows_map(windows).contains_key(
        (#[trigger] windows[k]).start,
    ) && windows_map(windows)[windows[k].start] == lists_of(windows[k].readings@) by {
        assert(starts[k] == windows[k].start);
        let j = starts.index_of(windows[k].start);
        assert(starts[j] == windows[j].start);
    }
    assert forall|s: u64| #[trigger] windows_map(windows).contains_key(s) implies exists|k: int|
        0 <= k < windows.len() && (#[trigger] windows[k]).start == s by {
        let k = starts.index_of(s);
        assert(starts[k] == windows[k].start);
    }
}

/// A window put in at its place in the order.
proof fn lemma_window_inserted(windows: Seq<PendingWindow>, k: int, fresh: PendingWindow)
    requires
        windows_ascending(windows),
        0 <= k <= windows.len(),
        forall|j: int| 0 <= j < k ==> (#[trigger] windows[j]).start < fresh.start,
        k < windows.len() ==> fresh.start < windows[k].start,
    ensures
        windows_ascending(windows.insert(k, fresh)),
        !windows_map(windows).contains_key(fresh.start),
        windows_map(windows.insert(k, fresh)) == windows_map(windows).insert(
            fresh.start,
            lists_of(fresh.readings@),
        ),
{
    let after = windows.insert(k, fresh);
    assert forall|j: int| k <= j < windows.len() implies fresh.start < (
    #[trigger] windows[j]).start by {
        if j > k {
            assert(windows[k].start < windows[j].start);
        }
    }
    assert forall|a: int, b: int| 0 <= a < b < after.len() implies (#[trigger] after[a]).start < (
    #[trigger] after[b]).start by {
        let a0 = if a < k {
            a
        } else {
            a - 1
        };
        let b0 = if b < k {
            b
        } else {
            b - 1
        };
        if a != k {
            assert(after[a] == windows[a0]);
        }
        if b != k {
            assert(after[b] == windows[b0]);
        }
    }
    lemma_windows_map(windows);
    lemma_windows_map(after);
    let m = windows_map(windows);
    let n = windows_map(after);
    assert(after[k] == fresh);
    assert forall|s: u64| m.contains_key(s) implies s != fresh.start && n.contains_key(s) && n[s]
        == m[s] by {
        let j = choose|j: int| 0 <= j < windows.len() && (#[trigger] windows[j]).start == s;
        let i = if j < k {
            j
        } else {
            j + 1
        };
        assert(after[i] == windows[j]);
    }
    assert forall|s: u64| n.contains_key(s) implies s == fresh.start || m.contains_key(s) by {
        let i = choose|i: int| 0 <= i < after.len() && (#[trigger] after[i]).start == s;
        if i < k {
            assert(after[i] == windows[i]);
        } else if i > k {
            assert(after[i] == windows[i - 1]);
        }
    }
    assert(n =~= m.insert(fresh.start, lists_of(fresh.readings@)));
}

/// A window replaced by one with the same start.
proof fn lemma_window_updated(windows: Seq<PendingWindow>, k: int, fresh: PendingWindow)
    requires
        windows_ascending(windows),
        0 <= k < windows.len(),
        fresh.start == windows[k].start,
    ensures
        windows_ascending(windows.update(k, fresh)),
        windows_map(windows).contains_key(fresh.start),
        windows_map(windows)[fresh.start] == lists_of(windows[k].readings@),
        windows_map(windows.update(k, fresh)) == windows_map(windows).insert(
            fresh.start,
            lists_of(fresh.readings@),
        ),
{
    let after = windows.update(k, fresh);
    assert forall|j: int| 0 <= j < after.len() implies (#[trigger] after[j]).start
        == windows[j].start by {}
    lemma_windows_map(windows);
    lemma_windows_map(after);
    let m = windows_map(windows);
    let n = windows_map(after);
    assert(after[k] == fresh);
    assert(windows[k].start == fresh.start);
    assert forall|s: u64| m.contains_key(s) implies n.contains_key(s) && (s != fresh.start ==> n[s]
        == m[s]) by {
        let j = choose|j: int| 0 <= j < windows.len() && (#[trigger] windows[j]).start == s;
        assert(after[j].start == s);
    }
    assert forall|s: u64| n.contains_key(s) implies m.contains_key(s) by {
        let j = choose|j: int| 0 <= j < after.len() && (#[trigger] after[j]).start == s;
        assert(windows[j].start == s);
    }
    assert(n =~= m.insert(fresh.start, lists_of(fresh.readings@)));
}

/// Pending windows with one more reading in the window that starts at `start`.
pub open spec fn with_reading(
    windows: Map<u64, WindowReadings>,
    start: u64,
    reading: SensorReading,
) -> Map<u64, WindowReadings> {
    let lists = if windows.contains_key(start) {
        windows[start]
    } else {
        Map::empty()
    };
    let list = if lists.contains_key(reading.id()) {
        lists[reading.id()]
    } else {
        Seq::empty()
    };
    windows.insert(start, lists.insert(reading.id(), list.push(reading)))
}

/// Whether every reading is in the window of its time, under its sensor.
pub open spec fn all_placed(windows: Map<u64, WindowReadings>, window_ms: int) -> bool {
    forall|s: u64, id: Seq<char>, i: int|
        #![trigger windows[s][id][i]]
        windows.contains_key(s) && windows[s].contains_key(id) && 0 <= i < windows[s][id].len()
            ==> windows[s][id][i].id() == id && window_start(
            windows[s][id][i].ts() as int,
            window_ms,
        ) == s
}

/// Pending windows once the reading that was pulled, if any, is in the window of its time.
pub open spec fn with_pulled(
    windows: Map<u64, WindowReadings>,
    pulled: Option<SensorReading>,
    window_ms: int,
) -> Map<u64, WindowReadings> {
    match pulled {
        Some(reading) => with_reading(
            windows,
            window_start(reading.ts() as int, window_ms) as u64,
            reading,
        ),
        None => windows,
    }
}

/// Whether a window has a sensor, and a reading of each of its sensors.
pub open spec fn holds_readings(lists: WindowReadings) -> bool {
    &&& exists|id: Seq<char>| #[trigger] lists.contains_key(id)
    &&& forall|id: Seq<char>| #[trigger] lists.contains_key(id) ==> lists[id].len() > 0
}

/// Whether every window starts at a multiple of the window length and has readings.
pub open spec fn all_aligned(windows: Map<u64, WindowReadings>, window_ms: int) -> bool {
    forall|s: u64| #[trigger]
        windows.contains_key(s) ==> s as int % window_ms == 0 && holds_readings(windows[s])
}

/// Whether every window ends, with its grace period, within the range of the clock.
pub open spec fn all_end(windows: Map<u64, WindowReadings>, window_ms: int) -> bool {
    forall|s: u64| #[trigger]
        windows.contains_key(s) ==> s + window_ms + grace_length(window_ms) <= u64::MAX
}

/// The windows that are not ready.
pub open spec fn not_ready(
    windows: Map<u64, WindowReadings>,
    now_ms: u64,
    window_ms: int,
) -> Map<u64, WindowReadings> {
    windows.restrict(Set::new(|s: u64| !is_ready(s, now_ms, window_ms)))
}

/// Whether `claimed` holds exactly the windows of `windows` for which `pick` holds, in ascending
/// order of their starts, with all their readings, and with frame identifiers from `first` on. Each
/// starts at a multiple of the window length and has readings.
pub open spec fn claims(
    claimed: Seq<ClaimedWindow>,
    windows: Map<u64, WindowReadings>,
    pick: spec_fn(u64) -> bool,
    first: u64,
    window_ms: int,
) -> bool {
    &&& forall|a: int, b: int|
        0 <= a < b < claimed.len() ==> (#[trigger] claimed[a]).window_start < (
        #[trigger] claimed[b]).window_start
    &&& forall|k: int|
        0 <= k < claimed.len() ==> {
            let c = #[trigger] claimed[k];
            &&& windows.contains_key(c.window_start)
            &&& pick(c.window_start)
            &&& lists_of(c.readings@) == windows[c.window_start]
            &&& c.window_start as int % window_ms == 0
            &&& holds_readings(lists_of(c.readings@))
            &&& c.window_end == c.window_start + window_ms
            &&& c.frame_id == id_after(first, k)
        }
    &&& forall|s: u64| #[trigger]
        windows.contains_key(s) && pick(s) ==> exists|k: int|
            0 <= k < claimed.len() && (#[trigger] claimed[k]).window_start == s
}

/// No window is lost or doubled: each pending window is claimed with all its readings, exactly
/// once, if it is ready, and else stays with all its readings.
pub proof fn lemma_each_window_is_claimed_or_kept(
    claimed: Seq<ClaimedWindow>,
    windows: Map<u64, WindowReadings>,
    now_ms: u64,
    first: u64,
    window_ms: int,
    start: u64,
)
    requires
        claims(claimed, windows, |s: u64| is_ready(s, now_ms, window_ms), first, window_ms),
        windows.contains_key(start),
    ensures
        is_ready(start, now_ms, window_ms) ==> !not_ready(
            windows,
            now_ms,
            window_ms,
        ).contains_key(start) && exists|k: int|
            0 <= k < claimed.len() && (#[trigger] claimed[k]).window_start == start && lists_of(
                claimed[k].readings@,
            ) == windows[start],
        !is_ready(start, now_ms, window_ms) ==> not_ready(
            windows,
            now_ms,
            window_ms,
        ).contains_key(start) && not_ready(windows, now_ms, window_ms)[start] == windows[start]
            && forall|k: int| 0 <= k < claimed.len() ==> (#[trigger] claimed[k]).window_start
            != start,
        forall|a: int, b: int|
            0 <= a < claimed.len() && 0 <= b < claimed.len() && (
            #[trigger] claimed[a]).window_start == (#[trigger] claimed[b]).window_start ==> a == b,
{
}

/// Frame identifiers follow the order of windows: of two windows claimed together, the one that
/// starts later has the larger identifier; and all of them are below those of any later claim.
pub proof fn lemma_frame_ids_follow_windows(
    claimed: Seq<ClaimedWindow>,
    windows: Map<u64, WindowReadings>,
    pick: spec_fn(u64) -> bool,
    first: u64,
    window_ms: int,
)
    requires
        claims(claimed, windows, pick, first, window_ms),
        first + claimed.len() <= u64::MAX,
    ensures
        forall|a: int, b: int|
            0 <= a < claimed.len() && 0 <= b < claimed.len() ==> ((
            #[trigger] claimed[a]).window_start < (#[trigger] claimed[b]).window_start
                <==> claimed[a].frame_id < claimed[b].frame_id),
        forall|k: int|
            0 <= k < claimed.len() ==> first <= (#[trigger] claimed[k]).frame_id < id_after(
                first,
                claimed.len() as int,
            ),
{
}

/// A claimed window holds readings of its own time only, and only once they are older than the
/// grace period.
pub proof fn lemma_claimed_readings_are_old(
    claimed: Seq<ClaimedWindow>,
    windows: Map<u64, WindowReadings>,
    now_ms: u64,
    first: u64,
    window_ms: int,
    k: int,
    id: Seq<char>,
    i: int,
)
    requires
        0 < window_ms,
        all_placed(windows, window_ms),
        claims(claimed, windows, |s: u64| is_ready(s, now_ms, window_ms), first, window_ms),
        0 <= k < claimed.len(),
        lists_of(claimed[k].readings@).contains_key(id),
        0 <= i < lists_of(claimed[k].readings@)[id].len(),
    ensures
        lists_of(claimed[k].readings@)[id][i].id() == id,
        claimed[k].window_start <= lists_of(claimed[k].readings@)[id][i].ts()
            < claimed[k].window_end,
        lists_of(claimed[k].readings@)[id][i].ts() + grace_length(window_ms) < now_ms,
{
    let s = claimed[k].window_start;
    let r = windows[s][id][i];
    lemma_time_lies_in_one_window(r.ts() as int, window_ms, 0);
}

/// Collects readings in windows and hands out windows to become frames.
pub struct AggregationEngine {
    window_ms: u64,
    grace_ms: u64,
    windows: Vec<PendingWindow>,
    next_frame_id: u64,
    shutdown: bool,
    history: Ghost<Seq<Round>>,
    handed: Ghost<Seq<Seq<ClaimedWindow>>>,
}

impl AggregationEngine {
    /// The windows that still take readings.
    pub closed spec fn pending(&self) -> Map<u64, WindowReadings> {
        windows_map(self.windows@)
    }

    /// The window length in milliseconds.
    pub closed spec fn window(&self) -> int {
        self.window_ms as int
    }

    /// The identifier of the next frame.
    pub closed spec fn next_id(&self) -> u64 {
        self.next_frame_id
    }

    /// Whether the end was asked for.
    pub closed spec fn is_ending(&self) -> bool {
        self.shutdown
    }

    /// What was done so far.
    pub closed spec fn history(&self) -> Seq<Round> {
        self.history@
    }

    /// What was handed out so far, for each entry of the history.
    pub closed spec fn handed(&self) -> Seq<Seq<ClaimedWindow>> {
        self.handed@
    }

    /// Windows are kept in order; every reading is in its window; every window starts at a multiple
    /// of the window length, has readings, and ends; what is pending is what the history leaves;
    /// and before the end is asked for, no worker has finished.
    pub closed spec fn wf(&self) -> bool {
        &&& self.window_ms > 0
        &&& self.grace_ms == grace_length(self.window_ms as int)
        &&& windows_ascending(self.windows@)
        &&& all_placed(self.pending(), self.window_ms as int)
        &&& all_aligned(self.pending(), self.window_ms as int)
        &&& all_end(self.pending(), self.window_ms as int)
        &&& is_run(
            self.history(),
            self.handed(),
            self.pending(),
            self.next_id(),
            self.window(),
        )
        &&& !self.shutdown ==> forall|r: int|
            0 <= r < self.history().len() ==> !((#[trigger] self.history()[r]) is Finish)
    }

    /// What holds of every engine.
    pub proof fn lemma_readings_are_in_their_windows(&self)
        requires
            self.wf(),
        ensures
            self.window() > 0,
            all_placed(self.pending(), self.window()),
            all_aligned(self.pending(), self.window()),
            all_end(self.pending(), self.window()),
            is_run(
                self.history(),
                self.handed(),
                self.pending(),
                self.next_id(),
                self.window(),
            ),
            !self.is_ending() ==> forall|r: int|
                0 <= r < self.history().len() ==> !((#[trigger] self.history()[r]) is Finish),
    {
    }

    /// An engine without readings. Durations below a millisecond count as one.
    pub fn new(window_duration_ms: u128) -> (r: Self)
        requires
            window_length(window_duration_ms) > 0,
        ensures
            r.wf(),
            r.window() == window_length(window_duration_ms),
            r.pending() == Map::<u64, WindowReadings>::empty(),
            r.next_id() == 0,
            !r.is_ending(),
            r.history() == Seq::<Round>::empty(),
            r.handed() == Seq::<Seq<ClaimedWindow>>::empty(),
    {
        let window_ms: u64 = if window_duration_ms == 0 {
            1
        } else {
            (window_duration_ms % 0x1_0000_0000_0000_0000) as u64
        };
        let grace_ms: u64 = if window_ms / 2 >= 50 {
            window_ms / 2
        } else {
            50
        };
        let r = AggregationEngine {
            window_ms,
            grace_ms,
            windows: Vec::new(),
            next_frame_id: 0,
            shutdown: false,
            history: Ghost(Seq::empty()),
            handed: Ghost(Seq::empty()),
        };
        proof {
            assert(r.pending() =~= Map::empty());
            lemma_new_engine_has_no_round(r.window());
        }
        r
    }

    /// Whether the window of a time ends, with its grace period, within the range of the clock.
    pub fn accepts(&self, ts: u64) -> (b: bool)
        requires
            self.wf(),
        ensures
            b == (window_start(ts as int, self.window()) + self.window() + grace_length(
                self.window(),
            ) <= u64::MAX),
    {
        proof {
            lemma_time_lies_in_one_window(ts as int, self.window_ms as int, 0);
        }
        let start: u64 = (ts / self.window_ms) * self.window_ms;
        start <= u64::MAX - self.window_ms && start + self.window_ms <= u64::MAX - self.grace_ms
    }

    /// Puts a reading into the window of its time.
    pub fn add_reading(&mut self, reading: SensorReading)
        requires
            old(self).wf(),
            window_start(reading.ts() as int, old(self).window()) + old(self).window()
                + grace_length(old(self).window()) <= u64::MAX,
        ensures
            final(self).wf(),
            final(self).window() == old(self).window(),
            final(self).next_id() == old(self).next_id(),
            final(self).is_ending() == old(self).is_ending(),
            final(self).pending() == with_reading(
                old(self).pending(),
                window_start(reading.ts() as int, old(self).window()) as u64,
                reading,
            ),
            final(self).history() == old(self).history().push(Round::Store(reading)),
            final(self).handed() == old(self).handed().push(Seq::empty()),
    {
        let ghost start_of_step = *self;
        let ts = reading.timestamp_millis();
        proof {
            lemma_time_lies_in_one_window(ts as int, self.window_ms as int, 0);
        }
        let start: u64 = (ts / self.window_ms) * self.window_ms;
        let ghost before = self.windows@;
        let ghost pending = self.pending();
        let ghost w = self.window_ms as int;
        proof {
            lemma_windows_map(before);
        }
        let mut k: usize = 0;
        while k < self.windows.len() && self.windows[k].start < start
            invariant
                k <= self.windows.len(),
                self.windows@ == before,
                forall|j: int| 0 <= j < k ==> (#[trigger] before[j]).start < start,
            decreases self.windows.len() - k,
        {
            k = k + 1;
        }
        let sensor_id = reading.sensor_id().to_string();
        let ghost id = reading.id();
        if k >= self.windows.len() || self.windows[k].start != start {
            let mut readings: IdMap<Vec<SensorReading>> = IdMap::new();
            let ghost empty = readings@;
            readings.push_item(sensor_id, reading);
            let fresh = PendingWindow { start, readings };
            self.windows.insert(k, fresh);
            proof {
                lemma_window_inserted(before, k as int, fresh);
                lemma_one_item_more(empty, fresh.readings@, id, reading);
                assert(lists_of(empty) =~= Map::empty());
            }
        } else {
            self.windows[k].readings.push_item(sensor_id, reading);
            proof {
                let after = self.windows@;
                lemma_window_updated(before, k as int, after[k as int]);
                assert(after =~= before.update(k as int, after[k as int]));
                assert(before[k as int].start == start);
                lemma_one_item_more(
                    before[k as int].readings@,
                    after[k as int].readings@,
                    id,
                    reading,
                );
            }
        }
        assert(self.pending() == with_reading(pending, start, reading));
        proof {
            lemma_with_reading_placed(pending, start, reading, w);
            lemma_round_extends_run(
                start_of_step.history(),
                start_of_step.handed(),
                pending,
                self.next_frame_id,
                w,
                Round::Store(reading),
                Seq::empty(),
            );
        }
        self.history = Ghost(self.history@.push(Round::Store(reading)));
        self.handed = Ghost(self.handed@.push(Seq::empty()));
    }
}

impl AggregationEngine {
    /// Takes out the first `n` windows.
    fn claim_first(&mut self, n: usize, Ghost(round): Ghost<Round>) -> (r: Vec<ClaimedWindow>)
        requires
            old(self).wf(),
            n <= old(self).windows.len(),
            round is Claim || (round is Finish && old(self).is_ending()),
            forall|k: int|
                0 <= k < old(self).windows@.len() ==> (picked_in(round, old(self).window())((
                #[trigger] old(self).windows@[k]).start) <==> k < n),
        ensures
            final(self).wf(),
            final(self).window() == old(self).window(),
            final(self).is_ending() == old(self).is_ending(),
            claims(
                r@,
                old(self).pending(),
                picked_in(round, old(self).window()),
                old(self).next_id(),
                old(self).window(),
            ),
            final(self).pending() == left_in(old(self).pending(), round, old(self).window()),
            final(self).next_id() == id_after(old(self).next_id(), r@.len() as int),
            final(self).history() == old(self).history().push(round),
            final(self).handed() == old(self).handed().push(r@),
    {
        let ghost start_of_step = *self;
        let ghost pick = picked_in(round, self.window_ms as int);
        let ghost before = self.windows@;
        let ghost pending = self.pending();
        let ghost first = self.next_frame_id;
        let window_ms = self.window_ms;
        let rest = self.windows.split_off(n);
        let mut taken: Vec<PendingWindow> = Vec::new();
        std::mem::swap(&mut taken, &mut self.windows);
        self.windows = rest;
        let mut frame_id = self.next_frame_id;
        proof {
            lemma_windows_map(before);
            lemma_rest_of_windows(before, n as int, pick);
            assert(taken@ =~= before.take(n as int));
            assert(self.windows@ =~= before.skip(n as int));
            assert forall|k: int| 0 <= k < n implies (#[trigger] taken@[k]).start + window_ms
                <= u64::MAX by {
                assert(taken@[k] == before[k]);
                assert(pending.contains_key(before[k].start));
            }
        }
        let mut r: Vec<ClaimedWindow> = Vec::new();
        for w in it: taken
            invariant
                it.seq() == before.take(n as int),
                n <= before.len(),
                r@.len() == it.index(),
                frame_id == id_after(first, it.index() as int),
                forall|k: int| 0 <= k < n ==> (#[trigger] before[k]).start + window_ms <= u64::MAX,
                forall|k: int|
                    0 <= k < r@.len() ==> {
                        let c = #[trigger] r@[k];
                        &&& c.window_start == before[k].start
                        &&& c.readings == before[k].readings
                        &&& c.window_end == c.window_start + window_ms
                        &&& c.frame_id == id_after(first, k)
                    },
        {
            assert(w == before[it.index() as int]);
            r.push(
                ClaimedWindow {
                    frame_id,
                    window_start: w.start,
                    window_end: w.start + window_ms,
                    readings: w.readings,
                },
            );
            frame_id = if frame_id == u64::MAX {
                0
            } else {
                frame_id + 1
            };
        }
        self.next_frame_id = frame_id;
        proof {
            assert forall|a: int, b: int| 0 <= a < b < r@.len() implies (
            #[trigger] r@[a]).window_start < (#[trigger] r@[b]).window_start by {
                assert(before[a].start < before[b].start);
            }
            assert forall|s: u64| #[trigger] pending.contains_key(s) && pick(s) implies exists|k:
                int| 0 <= k < r@.len() && (#[trigger] r@[k]).window_start == s by {
                let k = choose|k: int| 0 <= k < before.len() && (#[trigger] before[k]).start == s;
                assert(r@[k].window_start == s);
            }
            assert(self.pending() =~= left_in(pending, round, window_ms as int));
            lemma_round_extends_run(
                start_of_step.history(),
                start_of_step.handed(),
                pending,
                first,
                window_ms as int,
                round,
                r@,
            );
        }
        self.history = Ghost(self.history@.push(round));
        self.handed = Ghost(self.handed@.push(r@));
        r
    }

    /// Takes out all windows that are old enough, in order, and numbers them.
    pub fn claim_ready(&mut self, now_ms: u64) -> (r: Vec<ClaimedWindow>)
        requires
            old(self).wf(),
        ensures
            final(self).wf(),
            final(self).window() == old(self).window(),
            final(self).is_ending() == old(self).is_ending(),
            claims(
                r@,
                old(self).pending(),
                |s: u64| is_ready(s, now_ms, old(self).window()),
                old(self).next_id(),
                old(self).window(),
            ),
            final(self).pending() == not_ready(old(self).pending(), now_ms, old(self).window()),
            final(self).next_id() == id_after(old(self).next_id(), r@.len() as int),
            final(self).history() == old(self).history().push(Round::Claim(now_ms)),
            final(self).handed() == old(self).handed().push(r@),
    {
        let ghost before = self.windows@;
        let ghost pending = self.pending();
        let ghost w = self.window_ms as int;
        proof {
            lemma_windows_map(before);
        }
        let mut n: usize = 0;
        while n < self.windows.len() && now_ms >= self.windows[n].start + self.window_ms
            + self.grace_ms
            invariant
                n <= self.windows.len(),
                self.windows@ == before,
                self.window_ms == w,
                self.grace_ms == grace_length(w),
                pending == windows_map(before),
                all_end(pending, w),
                forall|k: int|
                    0 <= k < before.len() ==> pending.contains_key((#[trigger] before[k]).start),
                forall|k: int| 0 <= k < n ==> is_ready((#[trigger] before[k]).start, now_ms, w),
            decreases self.windows.len() - n,
        {
            n = n + 1;
        }
        let ghost round = Round::Claim(now_ms);
        proof {
            assert forall|k: int| 0 <= k < before.len() implies (picked_in(round, w)((
            #[trigger] before[k]).start) <==> k < n) by {
                if k > n {
                    assert(before[n as int].start < before[k].start);
                }
            }
        }
        self.claim_first(n, Ghost(round))
    }

    /// Takes out all windows, in order, and numbers them.
    fn claim_all(&mut self) -> (r: Vec<ClaimedWindow>)
        requires
            old(self).wf(),
            old(self).is_ending(),
        ensures
            final(self).wf(),
            final(self).window() == old(self).window(),
            final(self).is_ending() == old(self).is_ending(),
            claims(
                r@,
                old(self).pending(),
                |s: u64| true,
                old(self).next_id(),
                old(self).window(),
            ),
            final(self).pending() == Map::<u64, WindowReadings>::empty(),
            final(self).next_id() == id_after(old(self).next_id(), r@.len() as int),
            final(self).history() == old(self).history().push(Round::Finish),
            final(self).handed() == old(self).handed().push(r@),
    {
        let n = self.windows.len();
        self.claim_first(n, Ghost(Round::Finish))
    }

    /// Asks for the end. Asking again changes nothing.
    pub fn shutdown(&mut self)
        requires
            old(self).wf(),
        ensures
            final(self).wf(),
            final(self).is_ending(),
            final(self).pending() == old(self).pending(),
            final(self).window() == old(self).window(),
            final(self).next_id() == old(self).next_id(),
            final(self).history() == old(self).history(),
            final(self).handed() == old(self).handed(),
            old(self).is_ending() ==> *final(self) == *old(self),
    {
        self.shutdown = true;
    }

    /// The start of a worker's round. Once the end was asked for and no reading is left in the
    /// buffer, all windows are handed out and the worker is to end; before, it is to pull a
    /// reading.
    pub fn begin_round(&mut self, buffered: usize) -> (r: Option<Vec<ClaimedWindow>>)
        requires
            old(self).wf(),
        ensures
            final(self).wf(),
            final(self).window() == old(self).window(),
            final(self).is_ending() == old(self).is_ending(),
            match r {
                Some(claimed) => old(self).is_ending() && buffered == 0 && claims(
                    claimed@,
                    old(self).pending(),
                    |s: u64| true,
                    old(self).next_id(),
                    old(self).window(),
                ) && final(self).pending() == Map::<u64, WindowReadings>::empty() && final(
                    self).next_id() == id_after(old(self).next_id(), claimed@.len() as int)
                    && final(self).history() == old(self).history().push(Round::Finish) && final(
                    self).handed() == old(self).handed().push(claimed@),
                None => (!old(self).is_ending() || buffered > 0) && *final(self) == *old(self),
            },
    {
        if self.shutdown && buffered == 0 {
            Some(self.claim_all())
        } else {
            None
        }
    }

    /// The rest of a worker's round: stores the reading that was pulled, if any, and hands out
    /// the windows that are old enough.
    pub fn end_round(&mut self, pulled: Option<SensorReading>, now_ms: u64) -> (r: Vec<
        ClaimedWindow,
    >)
        requires
            old(self).wf(),
            pulled is Some ==> window_start(pulled->0.ts() as int, old(self).window()) + old(
                self).window() + grace_length(old(self).window()) <= u64::MAX,
        ensures
            final(self).wf(),
            final(self).window() == old(self).window(),
            final(self).is_ending() == old(self).is_ending(),
            ({
                let stored = with_pulled(old(self).pending(), pulled, old(self).window());
                &&& claims(
                    r@,
                    stored,
                    |s: u64| is_ready(s, now_ms, old(self).window()),
                    old(self).next_id(),
                    old(self).window(),
                )
                &&& final(self).pending() == not_ready(stored, now_ms, old(self).window())
            }),
            final(self).next_id() == id_after(old(self).next_id(), r@.len() as int),
            match pulled {
                Some(reading) => final(self).history() == old(self).history().push(
                    Round::Store(reading),
                ).push(Round::Claim(now_ms)) && final(self).handed() == old(self).handed().push(
                    Seq::empty(),
                ).push(r@),
                None => final(self).history() == old(self).history().push(Round::Claim(now_ms))
                    && final(self).handed() == old(self).handed().push(r@),
            },
    {
        if let Some(reading) = pulled {
            self.add_reading(reading);
        }
        self.claim_ready(now_ms)
    }
}

/// The windows after the first `n`, where those are the picked ones.
proof fn lemma_rest_of_windows(
    windows: Seq<PendingWindow>,
    n: int,
    pick: spec_fn(u64) -> bool,
)
    requires
        windows_ascending(windows),
        0 <= n <= windows.len(),
        forall|k: int|
            0 <= k < windows.len() ==> (pick((#[trigger] windows[k]).start) <==> k < n),
    ensures
        windows_ascending(windows.skip(n)),
        windows_map(windows.skip(n)) == windows_map(windows).restrict(
            Set::new(|s: u64| !pick(s)),
        ),
{
    let rest = windows.skip(n);
    assert forall|k: int| 0 <= k < rest.len() implies (#[trigger] rest[k]) == windows[k + n] by {}
    lemma_windows_map(windows);
    lemma_windows_map(rest);
    let m = windows_map(windows);
    let kept = m.restrict(Set::new(|s: u64| !pick(s)));
    assert forall|s: u64| windows_map(rest).contains_key(s) implies kept.contains_key(s)
        && windows_map(rest)[s] == kept[s] by {
        let k = choose|k: int| 0 <= k < rest.len() && (#[trigger] rest[k]).start == s;
        assert(windows[k + n].start == s);
    }
    assert forall|s: u64| kept.contains_key(s) implies windows_map(rest).contains_key(s) by {
        let k = choose|k: int| 0 <= k < windows.len() && (#[trigger] windows[k]).start == s;
        assert(rest[k - n].start == s);
    }
    assert(windows_map(rest) =~= kept);
}

/// What a list that takes one more item does to the lists of a window.
proof fn lemma_one_item_more(
    before: Map<Seq<char>, Vec<SensorReading>>,
    after: Map<Seq<char>, Vec<SensorReading>>,
    id: Seq<char>,
    reading: SensorReading,
)
    requires
        after.dom() == before.dom().insert(id),
        forall|key: Seq<char>|
            #[trigger] listed(after, key) == if key == id {
                listed(before, key).push(reading)
            } else {
                listed(before, key)
            },
    ensures
        lists_of(after) == lists_of(before).insert(
            id,
            (if lists_of(before).contains_key(id) {
                lists_of(before)[id]
            } else {
                Seq::empty()
            }).push(reading),
        ),
{
    assert forall|key: Seq<char>| after.contains_key(key) implies lists_of(after)[key]
        == lists_of(before).insert(
        id,
        (if lists_of(before).contains_key(id) {
            lists_of(before)[id]
        } else {
            Seq::empty()
        }).push(reading),
    )[key] by {
        assert(listed(after, key) == after[key]@);
    }
    assert(lists_of(after) =~= lists_of(before).insert(
        id,
        (if lists_of(before).contains_key(id) {
            lists_of(before)[id]
        } else {
            Seq::empty()
        }).push(reading),
    ));
}

/// A reading put into the window of its time leaves every reading in its window, and every window
/// at its place and with readings.
pub proof fn lemma_with_reading_placed(
    windows: Map<u64, WindowReadings>,
    start: u64,
    reading: SensorReading,
    window_ms: int,
)
    requires
        0 < window_ms,
        all_placed(windows, window_ms),
        all_aligned(windows, window_ms),
        start == window_start(reading.ts() as int, window_ms),
    ensures
        all_placed(with_reading(windows, start, reading), window_ms),
        all_aligned(with_reading(windows, start, reading), window_ms),
        all_end(windows, window_ms) && start + window_ms + grace_length(window_ms) <= u64::MAX
            ==> all_end(with_reading(windows, start, reading), window_ms),
{
    let after = with_reading(windows, start, reading);
    lemma_time_lies_in_one_window(reading.ts() as int, window_ms, 0);
    assert(after[start].contains_key(reading.id()));
    assert forall|s: u64| #[trigger] after.contains_key(s) implies s as int % window_ms == 0
        && holds_readings(after[s]) by {
        if s == start {
            assert forall|id: Seq<char>| #[trigger]
                after[s].contains_key(id) implies after[s][id].len() > 0 by {
                if id != reading.id() {
                    assert(windows[s].contains_key(id));
                }
            }
        } else {
            assert(windows.contains_key(s));
        }
    }
    assert forall|s: u64, id: Seq<char>, i: int|
        #![trigger after[s][id][i]]
        after.contains_key(s) && after[s].contains_key(id) && 0 <= i
            < after[s][id].len() implies after[s][id][i].id() == id && window_start(
        after[s][id][i].ts() as int,
        window_ms,
    ) == s by {
        if s != start || id != reading.id() || i < after[s][id].len() - 1 {
            assert(after[s][id][i] == windows[s][id][i]);
        }
    }
}

/// What was computed over the values of one sensor in one window.
#[derive(Clone, Copy, Debug, PartialEq, Eq, Structural)]
pub struct SensorFigures {
    pub min: u32,
    pub max: u32,
    pub sum: u32,
    pub sum_sq: u32,
    pub avg: u32,
    pub stddev: u32,
}

/// How far a value is from the mean, where it is too far: in standard deviations, with both
/// numbers as texts.
pub struct Deviation {
    pub severity: u32,
    pub value: String,
    pub mean: String,
}

/// What the values of one sensor in one window come to; and for each reading, in order, whether
/// its value deviates.
pub struct SensorOutcome {
    pub figures: SensorFigures,
    pub deviations: Vec<Option<Deviation>>,
}

/// The statistics over `count` readings.
pub open spec fn stats_of(f: SensorFigures, count: usize) -> SensorStats {
    SensorStats {
        count,
        min: f.min,
        max: f.max,
        sum: f.sum,
        sum_sq: f.sum_sq,
        avg: f.avg,
        stddev: f.stddev,
    }
}

/// The anomaly that a deviation is.
pub open spec fn anomaly_of(sensor_id: Seq<char>, d: Deviation) -> AnomalyView {
    AnomalyView {
        sensor_id,
        anomaly_type: "Deviation"@,
        severity: d.severity,
        description: "Value "@ + d.value@ + " deviates from mean "@ + d.mean@,
    }
}

/// The anomalies of one sensor, in the order of its readings.
pub open spec fn anomalies_in(
    sensor_id: Seq<char>,
    deviations: Seq<Option<Deviation>>,
) -> Seq<AnomalyView>
    decreases deviations.len(),
{
    if deviations.len() == 0 {
        Seq::empty()
    } else {
        let init = anomalies_in(sensor_id, deviations.drop_last());
        match deviations.last() {
            Some(d) => init.push(anomaly_of(sensor_id, d)),
            None => init,
        }
    }
}

/// Adds the anomalies of one sensor to a list.
pub fn detect_anomalies(
    sensor_id: &String,
    deviations: &Vec<Option<Deviation>>,
    anomalies: &mut Vec<Anomaly>,
)
    ensures
        anomaly_views(final(anomalies)@) == anomaly_views(old(anomalies)@) + anomalies_in(
            sensor_id@,
            deviations@,
        ),
{
    let ghost start = anomaly_views(anomalies@);
    let mut i: usize = 0;
    proof {
        assert(deviations@.take(0) =~= Seq::empty());
        assert(start + Seq::<AnomalyView>::empty() =~= start);
    }
    while i < deviations.len()
        invariant
            i <= deviations.len(),
            anomaly_views(anomalies@) == start + anomalies_in(
                sensor_id@,
                deviations@.take(i as int),
            ),
        decreases deviations.len() - i,
    {
        let ghost before = anomaly_views(anomalies@);
        let ghost init = anomalies_in(sensor_id@, deviations@.take(i as int));
        proof {
            assert(deviations@.take(i + 1).drop_last() =~= deviations@.take(i as int));
        }
        if let Some(d) = &deviations[i] {
            let mut description = "Value ".to_string();
            description.append(d.value.as_str());
            description.append(" deviates from mean ");
            description.append(d.mean.as_str());
            let a = Anomaly {
                sensor_id: sensor_id.clone(),
                anomaly_type: "Deviation".to_string(),
                severity: d.severity,
                description,
            };
            anomalies.push(a);
            proof {
                assert(anomaly_views(anomalies@) =~= before.push(a@));
                assert(start + init.push(a@) =~= (start + init).push(a@));
            }
        }
        i = i + 1;
    }
    assert(deviations@.take(i as int) =~= deviations@);
}

/// The largest queue length among readings.
pub open spec fn max_depth(readings: Seq<SensorReading>) -> usize
    decreases readings.len(),
{
    if readings.len() == 0 {
        0
    } else {
        larger(readings.last().depth(), max_depth(readings.drop_last()))
    }
}

/// Finds the largest queue length among readings.
fn find_max_depth(readings: &Vec<SensorReading>) -> (r: usize)
    ensures
        r == max_depth(readings@),
{
    let mut r: usize = 0;
    let mut i: usize = 0;
    assert(readings@.take(0) =~= Seq::empty());
    while i < readings.len()
        invariant
            i <= readings.len(),
            r == max_depth(readings@.take(i as int)),
        decreases readings.len() - i,
    {
        let depth = readings[i].internal_len();
        assert(readings@.take(i + 1).drop_last() =~= readings@.take(i as int));
        if depth > r {
            r = depth;
        }
        i = i + 1;
    }
    assert(readings@.take(i as int) =~= readings@);
    r
}

/// The largest queue length is that of some reading, and no reading has a larger one.
pub proof fn lemma_max_depth(readings: Seq<SensorReading>)
    ensures
        forall|i: int|
            0 <= i < readings.len() ==> (#[trigger] readings[i]).depth() <= max_depth(readings),
        readings.len() > 0 ==> exists|i: int|
            0 <= i < readings.len() && (#[trigger] readings[i]).depth() == max_depth(readings),
    decreases readings.len(),
{
    if readings.len() > 0 {
        let init = readings.drop_last();
        lemma_max_depth(init);
        assert forall|i: int| 0 <= i < readings.len() implies (#[trigger] readings[i]).depth()
            <= max_depth(readings) by {
            if i < init.len() {
                assert(readings[i] == init[i]);
            }
        }
        if max_depth(readings) == readings.last().depth() {
            assert(readings[readings.len() - 1].depth() == max_depth(readings));
        } else {
            let i = choose|i: int|
                0 <= i < init.len() && (#[trigger] init[i]).depth() == max_depth(init);
            assert(readings[i].depth() == max_depth(readings));
        }
    }
}

/// The anomalies of the first `k` sensors of a window.
pub open spec fn frame_anomalies(
    ids: Seq<Seq<char>>,
    outcomes: Seq<SensorOutcome>,
    k: int,
) -> Seq<AnomalyView>
    decreases k,
{
    if k <= 0 {
        Seq::empty()
    } else {
        frame_anomalies(ids, outcomes, k - 1) + anomalies_in(ids[k - 1], outcomes[k - 1].deviations@)
    }
}

/// The frame of a window, given what the values of each sensor come to. Sensors are taken in the
/// order of their identifiers.
pub open spec fn frame_of(window: ClaimedWindow, outcomes: Seq<SensorOutcome>) -> FrameView {
    let ids = window.readings.ids();
    let lists = window.readings.values();
    FrameView {
        frame_id: window.frame_id,
        window_start: window.window_start,
        window_end: window.window_end,
        sensor_stats: zipped(
            ids,
            Seq::new(
                ids.len(),
                |k: int| stats_of(outcomes[k].figures, lists[k]@.len() as usize),
            ),
        ),
        anomalies: frame_anomalies(ids, outcomes, ids.len() as int),
        sensor_internal_buffer_max: zipped(
            ids,
            Seq::new(ids.len(), |k: int| max_depth(lists[k]@)),
        ),
    }
}

/// Makes the frame of a window from what the values of each sensor come to, one outcome per
/// sensor in the order of their identifiers, with one deviation entry per reading.
pub fn make_frame(window: &ClaimedWindow, outcomes: &Vec<SensorOutcome>) -> (r: AggregatedFrame)
    requires
        outcomes@.len() == window.readings.ids().len(),
        forall|k: int|
            0 <= k < outcomes@.len() ==> (#[trigger] outcomes@[k]).deviations@.len()
                == window.readings.values()[k]@.len(),
    ensures
        r@ == frame_of(*window, outcomes@),
        r.frame_id == window.frame_id,
        r.window_start == window.window_start,
        r.window_end == window.window_end,
        forall|k: int, i: int|
            0 <= k < outcomes@.len() && 0 <= i < outcomes@[k].deviations@.len() && (
            #[trigger] outcomes@[k].deviations@[i]) is Some ==> anomaly_views(
                r.anomalies@,
            ).contains(
                AnomalyView {
                    sensor_id: window.readings.ids()[k],
                    anomaly_type: "Deviation"@,
                    severity: outcomes@[k].deviations@[i]->0.severity,
                    description: "Value "@ + outcomes@[k].deviations@[i]->0.value@
                        + " deviates from mean "@ + outcomes@[k].deviations@[i]->0.mean@,
                },
            ),
{
    let n = window.readings.len();
    let ghost ids = window.readings.ids();
    let ghost lists = window.readings.values();
    let ghost stats = Seq::new(
        ids.len(),
        |k: int| stats_of(outcomes@[k].figures, lists[k]@.len() as usize),
    );
    let ghost depths = Seq::new(ids.len(), |k: int| max_depth(lists[k]@));
    let mut sensor_stats: IdMap<SensorStats> = IdMap::new();
    let mut sensor_internal_buffer_max: IdMap<usize> = IdMap::new();
    let mut anomalies: Vec<Anomaly> = Vec::new();
    proof {
        assert(anomaly_views(anomalies@) =~= Seq::empty());
        assert(sensor_stats@ =~= zipped(ids.take(0), stats.take(0)));
        assert(sensor_internal_buffer_max@ =~= zipped(ids.take(0), depths.take(0)));
    }
    let mut k: usize = 0;
    while k < n
        invariant
            k <= n,
            n == ids.len(),
            ids == window.readings.ids(),
            lists == window.readings.values(),
            lists.len() == n,
            outcomes@.len() == n,
            ids_ascending(ids),
            stats == Seq::new(
                ids.len(),
                |k: int| stats_of(outcomes@[k].figures, lists[k]@.len() as usize),
            ),
            depths == Seq::new(ids.len(), |k: int| max_depth(lists[k]@)),
            sensor_stats@ == zipped(ids.take(k as int), stats.take(k as int)),
            sensor_internal_buffer_max@ == zipped(ids.take(k as int), depths.take(k as int)),
            anomaly_views(anomalies@) == frame_anomalies(ids, outcomes@, k as int),
        decreases n - k,
    {
        let sensor_id = window.readings.id_at(k);
        let readings = window.readings.value_at(k);
        let f = outcomes[k].figures;
        detect_anomalies(sensor_id, &outcomes[k].deviations, &mut anomalies);
        sensor_stats.insert(
            sensor_id.clone(),
            SensorStats {
                count: readings.len(),
                min: f.min,
                max: f.max,
                sum: f.sum,
                sum_sq: f.sum_sq,
                avg: f.avg,
                stddev: f.stddev,
            },
        );
        sensor_internal_buffer_max.insert(sensor_id.clone(), find_max_depth(readings));
        proof {
            lemma_zipped_one_more(ids, stats, k as int);
            lemma_zipped_one_more(ids, depths, k as int);
        }
        k = k + 1;
    }
    proof {
        assert(ids.take(k as int) =~= ids);
        assert(stats.take(k as int) =~= stats);
        assert(depths.take(k as int) =~= depths);
        let at = lemma_window_has_every_anomaly(ids, outcomes@, n as int);
        assert forall|s: int, i: int|
            0 <= s < outcomes@.len() && 0 <= i < outcomes@[s].deviations@.len() && (
            #[trigger] outcomes@[s].deviations@[i]) is Some implies anomaly_views(
            anomalies@,
        ).contains(
            AnomalyView {
                sensor_id: ids[s],
                anomaly_type: "Deviation"@,
                severity: outcomes@[s].deviations@[i]->0.severity,
                description: "Value "@ + outcomes@[s].deviations@[i]->0.value@
                    + " deviates from mean "@ + outcomes@[s].deviations@[i]->0.mean@,
            },
        ) by {
            assert(at.contains((s, i)));
            let j = choose|j: int| 0 <= j < at.len() && at[j] == (s, i);
            assert(at[j] == (s, i));
            assert(anomaly_views(anomalies@)[j] == frame_anomalies(ids, outcomes@, n as int)[j]);
        }
    }
    AggregatedFrame {
        frame_id: window.frame_id,
        window_start: window.window_start,
        window_end: window.window_end,
        sensor_stats,
        anomalies,
        sensor_internal_buffer_max,
    }
}

/// A configured window length counts in milliseconds as it is, but at least one.
pub proof fn lemma_window_length(duration_ms: u128)
    ensures
        duration_ms == 0 ==> window_length(duration_ms) == 1,
        0 < duration_ms < 0x1_0000_0000_0000_0000 ==> window_length(duration_ms) == duration_ms,
{
}

/// The grace period is half a window, but at least fifty milliseconds.
pub proof fn lemma_grace_length(window_ms: int)
    requires
        0 < window_ms,
    ensures
        grace_length(window_ms) >= 50,
        2 * grace_length(window_ms) >= window_ms - 1,
        grace_length(window_ms) == 50 || 2 * grace_length(window_ms) <= window_ms,
{
}

/// A window is ready exactly once its end is fifty milliseconds and half a window ago.
pub proof fn lemma_ready_after_grace(start: u64, now_ms: u64, window_ms: int)
    requires
        0 < window_ms,
    ensures
        is_ready(start, now_ms, window_ms) <==> now_ms - (start + window_ms) >= 50 && now_ms - (start
            + window_ms) >= window_ms / 2,
{
}

/// Frame identifiers go up one by one and start over after the largest there is.
pub proof fn lemma_ids_go_up(id: u64, k: int)
    requires
        0 <= k,
    ensures
        id_after(id, 0) == id,
        id + k <= 0xffff_ffff_ffff_ffff ==> id_after(id, k) == id + k,
        id == 0xffff_ffff_ffff_ffff ==> id_after(id, 1) == 0,
        id_after(id_after(id, k), 1) == id_after(id, k + 1),
{
}

/// The lists of a window are those under its sensors.
pub proof fn lemma_lists_of(m: Map<Seq<char>, Vec<SensorReading>>)
    ensures
        forall|id: Seq<char>| #[trigger] lists_of(m).contains_key(id) <==> m.contains_key(id),
        forall|id: Seq<char>| m.contains_key(id) ==> #[trigger] lists_of(m)[id] == m[id]@,
{
}

/// The readings that wait in a window under a sensor.
pub open spec fn waiting_at(
    windows: Map<u64, WindowReadings>,
    start: u64,
    id: Seq<char>,
) -> Seq<SensorReading> {
    if windows.contains_key(start) && windows[start].contains_key(id) {
        windows[start][id]
    } else {
        Seq::empty()
    }
}

/// A reading that is put into a window comes last under its sensor there, and nothing else changes.
pub proof fn lemma_reading_goes_to_its_place(
    windows: Map<u64, WindowReadings>,
    start: u64,
    reading: SensorReading,
    s: u64,
    id: Seq<char>,
)
    ensures
        waiting_at(with_reading(windows, start, reading), start, reading.id()) == waiting_at(
            windows,
            start,
            reading.id(),
        ).push(reading),
        s != start || id != reading.id() ==> waiting_at(
            with_reading(windows, start, reading),
            s,
            id,
        ) == waiting_at(windows, s, id),
        with_reading(windows, start, reading).contains_key(s) <==> s == start
            || windows.contains_key(s),
        with_pulled(windows, None, 1) == windows,
{
}

/// The windows that are not ready are those of the windows that are not, with what they hold.
pub proof fn lemma_not_ready_windows_stay(
    windows: Map<u64, WindowReadings>,
    now_ms: u64,
    window_ms: int,
    s: u64,
)
    requires
        0 < window_ms,
    ensures
        not_ready(windows, now_ms, window_ms).contains_key(s) <==> windows.contains_key(s) && (now_ms
            - (s + window_ms) < 50 || now_ms - (s + window_ms) < window_ms / 2),
        not_ready(windows, now_ms, window_ms).contains_key(s) ==> not_ready(
            windows,
            now_ms,
            window_ms,
        )[s] == windows[s],
{
}

/// The anomalies of a sensor are one for each reading that deviates, in the order of its readings.
/// It gives the readings.
pub proof fn lemma_anomaly_per_deviation(
    sensor_id: Seq<char>,
    deviations: Seq<Option<Deviation>>,
) -> (at: Seq<int>)
    ensures
        at.len() == anomalies_in(sensor_id, deviations).len(),
        at.len() == deviations.filter(|d: Option<Deviation>| d is Some).len(),
        forall|k: int|
            0 <= k < at.len() ==> 0 <= #[trigger] at[k] < deviations.len() && deviations[at[k]]
                is Some && anomalies_in(sensor_id, deviations)[k] == (AnomalyView {
                sensor_id,
                anomaly_type: "Deviation"@,
                severity: deviations[at[k]]->0.severity,
                description: "Value "@ + deviations[at[k]]->0.value@ + " deviates from mean "@
                    + deviations[at[k]]->0.mean@,
            }),
        forall|i: int|
            0 <= i < deviations.len() && (#[trigger] deviations[i]) is Some ==> at.contains(i),
        forall|a: int, b: int| 0 <= a < b < at.len() ==> #[trigger] at[a] < #[trigger] at[b],
    decreases deviations.len(),
{
    reveal(Seq::filter);
    if deviations.len() == 0 {
        Seq::empty()
    } else {
        let init = deviations.drop_last();
        let last = deviations.len() - 1;
        let before = lemma_anomaly_per_deviation(sensor_id, init);
        let at = if deviations[last] is Some {
            before.push(last)
        } else {
            before
        };
        let r = anomalies_in(sensor_id, deviations);
        assert forall|k: int| 0 <= k < at.len() implies 0 <= #[trigger] at[k] < deviations.len()
            && deviations[at[k]] is Some && r[k] == (AnomalyView {
            sensor_id,
            anomaly_type: "Deviation"@,
            severity: deviations[at[k]]->0.severity,
            description: "Value "@ + deviations[at[k]]->0.value@ + " deviates from mean "@
                + deviations[at[k]]->0.mean@,
        }) by {
            if k < before.len() {
                assert(at[k] == before[k]);
                assert(init[before[k]] == deviations[before[k]]);
            }
        }
        assert forall|i: int|
            0 <= i < deviations.len() && (#[trigger] deviations[i]) is Some implies at.contains(
            i,
        ) by {
            if i < last {
                assert(init[i] is Some);
                assert(before.contains(i));
                let k = choose|k: int| 0 <= k < before.len() && before[k] == i;
                assert(at[k] == i);
            } else {
                assert(at[at.len() - 1] == i);
            }
        }
        assert forall|a: int, b: int| 0 <= a < b < at.len() implies #[trigger] at[a]
            < #[trigger] at[b] by {
            assert(at[a] == before[a]);
            if b < before.len() {
                assert(at[b] == before[b]);
            }
        }
        at
    }
}

/// The anomalies of a window are one for each reading of each of its sensors that deviates, sensor
/// by sensor and in the order of the readings of each. It gives the sensor and the reading of
/// each: none is left out, whatever was found before it, and none comes twice.
pub proof fn lemma_window_has_every_anomaly(
    ids: Seq<Seq<char>>,
    outcomes: Seq<SensorOutcome>,
    n: int,
) -> (at: Seq<(int, int)>)
    requires
        0 <= n <= ids.len(),
        n <= outcomes.len(),
    ensures
        at.len() == frame_anomalies(ids, outcomes, n).len(),
        forall|j: int|
            0 <= j < at.len() ==> {
                let (k, i) = #[trigger] at[j];
                &&& 0 <= k < n
                &&& 0 <= i < outcomes[k].deviations@.len()
                &&& outcomes[k].deviations@[i] is Some
                &&& frame_anomalies(ids, outcomes, n)[j] == (AnomalyView {
                    sensor_id: ids[k],
                    anomaly_type: "Deviation"@,
                    severity: outcomes[k].deviations@[i]->0.severity,
                    description: "Value "@ + outcomes[k].deviations@[i]->0.value@
                        + " deviates from mean "@ + outcomes[k].deviations@[i]->0.mean@,
                })
            },
        forall|k: int, i: int|
            0 <= k < n && 0 <= i < outcomes[k].deviations@.len() && (
            #[trigger] outcomes[k].deviations@[i]) is Some ==> at.contains((k, i)),
        forall|a: int, b: int|
            0 <= a < b < at.len() ==> (#[trigger] at[a]).0 < (#[trigger] at[b]).0 || (at[a].0
                == at[b].0 && at[a].1 < at[b].1),
    decreases n,
{
    if n == 0 {
        Seq::empty()
    } else {
        let last = n - 1;
        let before = lemma_window_has_every_anomaly(ids, outcomes, last);
        let d = outcomes[last].deviations@;
        let inner = lemma_anomaly_per_deviation(ids[last], d);
        let at = before + inner.map_values(|i: int| (last, i));
        let r = frame_anomalies(ids, outcomes, n);
        assert(r == frame_anomalies(ids, outcomes, last) + anomalies_in(ids[last], d));
        assert forall|j: int| 0 <= j < at.len() implies {
            let (k, i) = #[trigger] at[j];
            &&& 0 <= k < n
            &&& 0 <= i < outcomes[k].deviations@.len()
            &&& outcomes[k].deviations@[i] is Some
            &&& r[j] == (AnomalyView {
                sensor_id: ids[k],
                anomaly_type: "Deviation"@,
                severity: outcomes[k].deviations@[i]->0.severity,
                description: "Value "@ + outcomes[k].deviations@[i]->0.value@
                    + " deviates from mean "@ + outcomes[k].deviations@[i]->0.mean@,
            })
        } by {
            if j < before.len() {
                assert(at[j] == before[j]);
            } else {
                assert(at[j] == (last, inner[j - before.len()]));
            }
        }
        assert forall|k: int, i: int|
            0 <= k < n && 0 <= i < outcomes[k].deviations@.len() && (
            #[trigger] outcomes[k].deviations@[i]) is Some implies at.contains((k, i)) by {
            if k < last {
                assert(before.contains((k, i)));
                let j = choose|j: int| 0 <= j < before.len() && before[j] == (k, i);
                assert(at[j] == (k, i));
            } else {
                assert(d[i] is Some);
                assert(inner.contains(i));
                let j = choose|j: int| 0 <= j < inner.len() && inner[j] == i;
                assert(at[before.len() + j] == (k, i));
            }
        }
        assert forall|a: int, b: int| 0 <= a < b < at.len() implies (#[trigger] at[a]).0 < (
        #[trigger] at[b]).0 || (at[a].0 == at[b].0 && at[a].1 < at[b].1) by {
            if b < before.len() {
                assert(at[a] == before[a] && at[b] == before[b]);
            } else if a < before.len() {
                assert(at[a] == before[a]);
                assert(at[b] == (last, inner[b - before.len()]));
            } else {
                assert(at[a] == (last, inner[a - before.len()]));
                assert(at[b] == (last, inner[b - before.len()]));
                assert(inner[a - before.len()] < inner[b - before.len()]);
            }
        }
        at
    }
}

/// A frame has its window's identifier, start and end; for each sensor of the window, and no
/// other, the number of its readings, what its values come to, and the largest queue length among
/// its readings; and the anomalies of all sensors.
pub proof fn lemma_frame_of_a_window(window: ClaimedWindow, outcomes: Seq<SensorOutcome>)
    requires
        ids_ascending(window.readings.ids()),
        window.readings.ids().len() == window.readings.values().len(),
        outcomes.len() == window.readings.ids().len(),
    ensures
        ({
            let f = frame_of(window, outcomes);
            let ids = window.readings.ids();
            let lists = window.readings.values();
            &&& f.frame_id == window.frame_id
            &&& f.window_start == window.window_start
            &&& f.window_end == window.window_end
            &&& f.anomalies == frame_anomalies(ids, outcomes, ids.len() as int)
            &&& forall|id: Seq<char>| #[trigger]
                f.sensor_stats.contains_key(id) <==> ids.contains(id)
            &&& forall|id: Seq<char>| #[trigger]
                f.sensor_internal_buffer_max.contains_key(id) <==> ids.contains(id)
            &&& forall|k: int|
                0 <= k < ids.len() ==> {
                    let s = f.sensor_stats[#[trigger] ids[k]];
                    &&& s.count == lists[k]@.len()
                    &&& s.min == outcomes[k].figures.min
                    &&& s.max == outcomes[k].figures.max
                    &&& s.sum == outcomes[k].figures.sum
                    &&& s.sum_sq == outcomes[k].figures.sum_sq
                    &&& s.avg == outcomes[k].figures.avg
                    &&& s.stddev == outcomes[k].figures.stddev
                }
            &&& forall|k: int, i: int|
                0 <= k < ids.len() && 0 <= i < lists[k]@.len() ==> (
                #[trigger] lists[k]@[i]).depth() <= f.sensor_internal_buffer_max[ids[k]]
            &&& forall|k: int|
                #![trigger lists[k]]
                0 <= k < ids.len() && lists[k]@.len() > 0 ==> exists|i: int|
                    0 <= i < lists[k]@.len() && (#[trigger] lists[k]@[i]).depth()
                        == f.sensor_internal_buffer_max[ids[k]]
        }),
{
    let f = frame_of(window, outcomes);
    let ids = window.readings.ids();
    let lists = window.readings.values();
    let stats = Seq::new(
        ids.len(),
        |k: int| stats_of(outcomes[k].figures, lists[k]@.len() as usize),
    );
    let depths = Seq::new(ids.len(), |k: int| max_depth(lists[k]@));
    crate::id_map::lemma_zipped(ids, stats);
    crate::id_map::lemma_zipped(ids, depths);
    assert(f.sensor_stats =~= zipped(ids, stats));
    assert(f.sensor_internal_buffer_max =~= zipped(ids, depths));
    assert forall|k: int| 0 <= k < ids.len() implies f.sensor_stats[#[trigger] ids[k]] == stats[k]
        && f.sensor_internal_buffer_max[ids[k]] == max_depth(lists[k]@) && lists[k].len()
        == lists[k]@.len() by {
        assert(zipped(ids, stats).contains_key(ids[k]));
        assert(zipped(ids, depths).contains_key(ids[k]));
        lemma_max_depth(lists[k]@);
    }
    assert forall|k: int, i: int|
        0 <= k < ids.len() && 0 <= i < lists[k]@.len() implies (#[trigger] lists[k]@[i]).depth()
        <= f.sensor_internal_buffer_max[ids[k]] by {
        lemma_max_depth(lists[k]@);
        assert(f.sensor_internal_buffer_max[ids[k]] == max_depth(lists[k]@));
    }
    assert forall|k: int|
        #![trigger lists[k]]
        0 <= k < ids.len() && lists[k]@.len() > 0 implies exists|i: int|
        0 <= i < lists[k]@.len() && (#[trigger] lists[k]@[i]).depth()
            == f.sensor_internal_buffer_max[ids[k]] by {
        lemma_max_depth(lists[k]@);
        assert(f.sensor_internal_buffer_max[ids[k]] == max_depth(lists[k]@));
    }
}

/// What is handed out: windows that wait and are picked, each once and with all its readings, the
/// oldest first. Each ends one window length after it starts, and has the identifier after that of
/// the one before it.
pub proof fn lemma_what_is_claimed(
    claimed: Seq<ClaimedWindow>,
    windows: Map<u64, WindowReadings>,
    pick: spec_fn(u64) -> bool,
    first: u64,
    window_ms: int,
    k: int,
)
    requires
        claims(claimed, windows, pick, first, window_ms),
        0 <= k < claimed.len(),
    ensures
        windows.contains_key(claimed[k].window_start) && pick(claimed[k].window_start),
        claimed[k].window_end - claimed[k].window_start == window_ms,
        claimed[0].frame_id == first,
        k + 1 < claimed.len() ==> claimed[k].window_start < claimed[k + 1].window_start && (
        claimed[k].frame_id < 0xffff_ffff_ffff_ffff ==> claimed[k + 1].frame_id
            == claimed[k].frame_id + 1) && (claimed[k].frame_id == 0xffff_ffff_ffff_ffff
            ==> claimed[k + 1].frame_id == 0),
        forall|id: Seq<char>| #[trigger]
            claimed[k].readings@.contains_key(id) <==> windows[claimed[k].window_start].contains_key(
                id,
            ),
        forall|id: Seq<char>| #[trigger]
            claimed[k].readings@.contains_key(id) ==> claimed[k].readings@[id]@
                == windows[claimed[k].window_start][id] && claimed[k].readings@[id]@.len() > 0,
{
    assert(claimed[0].frame_id == id_after(first, 0));
    lemma_ids_go_up(first, k);
    lemma_lists_of(claimed[k].readings@);
    assert forall|id: Seq<char>| #[trigger]
        claimed[k].readings@.contains_key(id) <==> windows[claimed[k].window_start].contains_key(
            id,
        ) by {
        assert(lists_of(claimed[k].readings@).contains_key(id)
            <==> claimed[k].readings@.contains_key(id));
    }
    assert forall|id: Seq<char>| #[trigger]
        claimed[k].readings@.contains_key(id) implies claimed[k].readings@[id]@
        == windows[claimed[k].window_start][id] && claimed[k].readings@[id]@.len() > 0 by {
        assert(lists_of(claimed[k].readings@).contains_key(id));
        assert(lists_of(claimed[k].readings@)[id] == claimed[k].readings@[id]@);
    }
    if k + 1 < claimed.len() {
        assert(claimed[k + 1].frame_id == id_after(first, k + 1));
    }
}

} // verus!
