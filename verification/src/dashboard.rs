//! What the dashboard answers: statistics over all frames, one sensor's view, telemetry.
use vstd::prelude::*;
use crate::id_map::{ids_ascending, lemma_take_one_more, IdMap};
use crate::models::{
    anomaly_views, frame_views, texts, AggregatedFrame, Anomaly, AnomalyView,
    BufferTelemetrySnapshot, FrameView, SensorStats, TelemetryView, ThroughputTelemetrySnapshot,
};
use crate::telemetry::{empty_telemetry, joins, merge_buffer_telemetry_with_frames};

verus! {

/// Statistics over all frames.
#[derive(Debug)]
pub struct SystemStats {
    pub total_frames: usize,
    pub total_anomalies: usize,
    pub latest_frame_id: Option<u64>,
    pub latest_window_end: Option<u64>,
    pub sensors_seen: Vec<String>,
}

/// The number of anomalies in all frames.
pub open spec fn anomaly_total(f: Seq<FrameView>) -> nat
    decreases f.len(),
{
    if f.len() == 0 {
        0
    } else {
        anomaly_total(f.drop_last()) + f.last().anomalies.len()
    }
}

/// The frame whose window ends last; of several, the one listed last.
pub open spec fn latest_of(f: Seq<FrameView>) -> Option<FrameView>
    decreases f.len(),
{
    if f.len() == 0 {
        None
    } else {
        match latest_of(f.drop_last()) {
            Some(best) => if best.window_end > f.last().window_end {
                Some(best)
            } else {
                Some(f.last())
            },
            None => Some(f.last()),
        }
    }
}

/// The frame that counts as the latest is one of the frames, and no window ends after its own.
pub proof fn lemma_latest_of(f: Seq<FrameView>)
    ensures
        latest_of(f) is None <==> f.len() == 0,
        latest_of(f) matches Some(best) ==> f.contains(best) && forall|k: int|
            0 <= k < f.len() ==> (#[trigger] f[k]).window_end <= best.window_end,
    decreases f.len(),
{
    if f.len() > 0 {
        let init = f.drop_last();
        lemma_latest_of(init);
        let best = latest_of(f)->0;
        if latest_of(init) is Some && latest_of(init)->0.window_end > f.last().window_end {
            let j = choose|j: int| 0 <= j < init.len() && init[j] == best;
            assert(f[j] == best);
        } else {
            assert(f[f.len() - 1] == best);
        }
        assert forall|k: int| 0 <= k < f.len() implies (#[trigger] f[k]).window_end
            <= best.window_end by {
            if k < init.len() {
                assert(f[k] == init[k]);
            }
        }
    }
}

/// Whether any frame has statistics for a sensor.
pub open spec fn is_seen(f: Seq<FrameView>, id: Seq<char>) -> bool {
    exists|k: int| 0 <= k < f.len() && (#[trigger] f[k]).sensor_stats.contains_key(id)
}

/// Marks the sensors of one frame as seen.
fn mark_seen(seen: &mut IdMap<bool>, stats: &IdMap<SensorStats>)
    ensures
        forall|id: Seq<char>|
            #[trigger] final(seen)@.contains_key(id) <==> old(seen)@.contains_key(id)
                || stats@.contains_key(id),
{
    let n = stats.len();
    let ghost start = seen@;
    let ghost ids = stats.ids();
    let mut i: usize = 0;
    assert(!exists|id: Seq<char>| ids.take(0).contains(id));
    while i < n
        invariant
            i <= n,
            n == ids.len(),
            ids == stats.ids(),
            forall|id: Seq<char>|
                #[trigger] seen@.contains_key(id) <==> start.contains_key(id) || ids.take(
                    i as int,
                ).contains(id),
        decreases n - i,
    {
        let id = stats.id_at(i);
        seen.insert(id.clone(), true);
        proof {
            assert forall|x: Seq<char>| #[trigger] seen@.contains_key(x) <==> start.contains_key(x)
                || ids.take(i + 1).contains(x) by {
                lemma_take_one_more(ids, i as int, x);
            }
        }
        i = i + 1;
    }
    assert(ids.take(n as int) =~= ids);
}

/// Lists the identifiers of a map.
fn list_ids(seen: &IdMap<bool>) -> (r: Vec<String>)
    ensures
        texts(r@) == seen.ids(),
        ids_ascending(texts(r@)),
        forall|id: Seq<char>| #[trigger] texts(r@).contains(id) <==> seen@.contains_key(id),
{
    let n = seen.len();
    let mut r: Vec<String> = Vec::new();
    let mut i: usize = 0;
    assert(texts(r@) =~= seen.ids().take(0));
    while i < n
        invariant
            i <= n,
            n == seen.ids().len(),
            texts(r@) == seen.ids().take(i as int),
        decreases n - i,
    {
        let ghost before = texts(r@);
        let id = seen.id_at(i).clone();
        r.push(id);
        proof {
            assert(texts(r@) =~= before.push(id@));
            assert(seen.ids().take(i + 1) =~= seen.ids().take(i as int).push(seen.ids()[i as int]));
        }
        i = i + 1;
    }
    assert(seen.ids().take(n as int) =~= seen.ids());
    r
}

/// Statistics over all frames. The sensors are listed by ascending identifier.
pub fn system_stats(frames: &[AggregatedFrame]) -> (r: SystemStats)
    requires
        anomaly_total(frame_views(frames@)) <= usize::MAX,
    ensures
        r.total_frames == frames@.len(),
        r.total_anomalies == anomaly_total(frame_views(frames@)),
        match latest_of(frame_views(frames@)) {
            Some(best) => r.latest_frame_id == Some(best.frame_id) && r.latest_window_end == Some(
                best.window_end,
            ),
            None => r.latest_frame_id is None && r.latest_window_end is None,
        },
        ids_ascending(texts(r.sensors_seen@)),
        forall|id: Seq<char>|
            #[trigger] texts(r.sensors_seen@).contains(id) <==> is_seen(
                frame_views(frames@),
                id,
            ),
{
    let ghost f = frame_views(frames@);
    let mut total_anomalies: usize = 0;
    let mut latest_frame_id: Option<u64> = None;
    let mut latest_window_end: Option<u64> = None;
    let mut seen: IdMap<bool> = IdMap::new();
    let mut i: usize = 0;
    assert(f.take(0) =~= Seq::empty());
    while i < frames.len()
        invariant
            i <= frames.len(),
            f == frame_views(frames@),
            anomaly_total(f) <= usize::MAX,
            total_anomalies == anomaly_total(f.take(i as int)),
            match latest_of(f.take(i as int)) {
                Some(best) => latest_frame_id == Some(best.frame_id) && latest_window_end == Some(
                    best.window_end,
                ),
                None => latest_frame_id is None && latest_window_end is None,
            },
            forall|id: Seq<char>|
                #[trigger] seen@.contains_key(id) <==> is_seen(f.take(i as int), id),
        decreases frames.len() - i,
    {
        let frame = &frames[i];
        let ghost before = seen@;
        proof {
            assert(f[i as int] == frame@);
            assert(f.take(i + 1).drop_last() =~= f.take(i as int));
            assert(f.take(i + 1).last() == frame@);
            lemma_anomaly_total_grows(f, i + 1);
            assert(anomaly_views(frame.anomalies@).len() == frame.anomalies@.len());
        }
        total_anomalies = total_anomalies + frame.anomalies.len();
        let newer = match latest_window_end {
            Some(end) => frame.window_end >= end,
            None => true,
        };
        if newer {
            latest_frame_id = Some(frame.frame_id);
            latest_window_end = Some(frame.window_end);
        }
        mark_seen(&mut seen, &frame.sensor_stats);
        proof {
            assert forall|id: Seq<char>| #[trigger] seen@.contains_key(id) <==> is_seen(
                f.take(i + 1),
                id,
            ) by {
                let a = f.take(i as int);
                let b = f.take(i + 1);
                assert(b[i as int] == frame@);
                if is_seen(a, id) {
                    let k = choose|k: int|
                        0 <= k < a.len() && (#[trigger] a[k]).sensor_stats.contains_key(id);
                    assert(b[k].sensor_stats.contains_key(id));
                }
                if is_seen(b, id) && !frame.sensor_stats@.contains_key(id) {
                    let k = choose|k: int|
                        0 <= k < b.len() && (#[trigger] b[k]).sensor_stats.contains_key(id);
                    assert(a[k].sensor_stats.contains_key(id));
                }
                assert(before.contains_key(id) <==> is_seen(a, id));
            }
        }
        i = i + 1;
    }
    assert(f.take(i as int) =~= f);
    SystemStats {
        total_frames: frames.len(),
        total_anomalies,
        latest_frame_id,
        latest_window_end,
        sensors_seen: list_ids(&seen),
    }
}

/// A prefix has no more anomalies than the whole.
proof fn lemma_anomaly_total_grows(f: Seq<FrameView>, k: int)
    requires
        0 <= k <= f.len(),
    ensures
        anomaly_total(f.take(k)) <= anomaly_total(f),
    decreases f.len() - k,
{
    if k == f.len() {
        assert(f.take(k) =~= f);
    } else {
        lemma_anomaly_total_grows(f, k + 1);
        assert(f.take(k + 1).drop_last() =~= f.take(k));
    }
}

/// One sensor's latest statistics and all its anomalies.
#[derive(Debug)]
pub struct SensorLiveView {
    pub sensor_id: String,
    pub latest_frame_id: Option<u64>,
    pub latest_window_end: Option<u64>,
    pub stats: Option<SensorStats>,
    pub anomalies: Vec<Anomaly>,
}

/// What the view of one sensor says.
pub struct LiveView {
    pub sensor_id: Seq<char>,
    pub latest_frame_id: Option<u64>,
    pub latest_window_end: Option<u64>,
    pub stats: Option<SensorStats>,
    pub anomalies: Seq<AnomalyView>,
}

impl View for SensorLiveView {
    type V = LiveView;

    open spec fn view(&self) -> LiveView {
        LiveView {
            sensor_id: self.sensor_id@,
            latest_frame_id: self.latest_frame_id,
            latest_window_end: self.latest_window_end,
            stats: self.stats,
            anomalies: anomaly_views(self.anomalies@),
        }
    }
}

/// Of the frames with statistics for a sensor, the one whose window ends last; of several, the
/// one listed first.
pub open spec fn selected_for(f: Seq<FrameView>, id: Seq<char>) -> Option<FrameView>
    decreases f.len(),
{
    if f.len() == 0 {
        None
    } else {
        let prev = selected_for(f.drop_last(), id);
        if f.last().sensor_stats.contains_key(id) && (prev is None || f.last().window_end
            > prev->0.window_end) {
            Some(f.last())
        } else {
            prev
        }
    }
}

/// A sensor that was seen has a selected frame: one with its statistics, of which no window
/// ends later.
pub proof fn lemma_selected_for(f: Seq<FrameView>, id: Seq<char>)
    ensures
        selected_for(f, id) is Some <==> is_seen(f, id),
        selected_for(f, id) matches Some(best) ==> f.contains(best)
            && best.sensor_stats.contains_key(id) && forall|k: int|
            0 <= k < f.len() && (#[trigger] f[k]).sensor_stats.contains_key(id) ==> f[k].window_end
                <= best.window_end,
    decreases f.len(),
{
    if f.len() > 0 {
        let init = f.drop_last();
        lemma_selected_for(init, id);
        let last = f.last();
        assert(f[f.len() - 1] == last);
        if is_seen(f, id) && !last.sensor_stats.contains_key(id) {
            let k = choose|k: int|
                0 <= k < f.len() && (#[trigger] f[k]).sensor_stats.contains_key(id);
            assert(init[k].sensor_stats.contains_key(id));
        }
        if selected_for(f, id) is Some {
            let best = selected_for(f, id)->0;
            if best != last || !last.sensor_stats.contains_key(id) {
                let j = choose|j: int| 0 <= j < init.len() && init[j] == best;
                assert(f[j] == best);
            }
            assert forall|k: int|
                0 <= k < f.len() && (#[trigger] f[k]).sensor_stats.contains_key(
                    id,
                ) implies f[k].window_end <= best.window_end by {
                if k < init.len() {
                    assert(f[k] == init[k]);
                }
            }
        }
    }
}

/// The anomalies of a sensor in a list.
pub open spec fn own_anomalies(v: Seq<AnomalyView>, id: Seq<char>) -> Seq<AnomalyView> {
    v.filter(|a: AnomalyView| a.sensor_id == id)
}

/// The anomalies of a sensor in all frames, in order.
pub open spec fn anomalies_of(f: Seq<FrameView>, id: Seq<char>) -> Seq<AnomalyView>
    decreases f.len(),
{
    if f.len() == 0 {
        Seq::empty()
    } else {
        anomalies_of(f.drop_last(), id) + own_anomalies(f.last().anomalies, id)
    }
}

/// The view of a sensor.
pub open spec fn live_view(f: Seq<FrameView>, id: Seq<char>) -> LiveView {
    match selected_for(f, id) {
        Some(best) => LiveView {
            sensor_id: id,
            latest_frame_id: Some(best.frame_id),
            latest_window_end: Some(best.window_end),
            stats: Some(best.sensor_stats[id]),
            anomalies: anomalies_of(f, id),
        },
        None => LiveView {
            sensor_id: id,
            latest_frame_id: None,
            latest_window_end: None,
            stats: None,
            anomalies: Seq::empty(),
        },
    }
}

/// Adds the anomalies of a sensor in one frame to a list.
fn add_own_anomalies(from: &Vec<Anomaly>, id: &String, out: &mut Vec<Anomaly>)
    ensures
        anomaly_views(final(out)@) == anomaly_views(old(out)@) + own_anomalies(
            anomaly_views(from@),
            id@,
        ),
{
    let ghost start = anomaly_views(out@);
    let ghost all = anomaly_views(from@);
    let ghost mine = |a: AnomalyView| a.sensor_id == id@;
    let mut i: usize = 0;
    proof {
        reveal(Seq::filter);
        assert(all.take(0) =~= Seq::empty());
        assert(start + own_anomalies(all.take(0), id@) =~= start);
    }
    while i < from.len()
        invariant
            i <= from.len(),
            all == anomaly_views(from@),
            mine == (|a: AnomalyView| a.sensor_id == id@),
            anomaly_views(out@) == start + own_anomalies(all.take(i as int), id@),
        decreases from.len() - i,
    {
        proof {
            reveal(Seq::filter);
            assert(all.take(i + 1).drop_last() =~= all.take(i as int));
            assert(all.take(i + 1).last() == from@[i as int]@);
        }
        let ghost before = anomaly_views(out@);
        let ghost init = own_anomalies(all.take(i as int), id@);
        if from[i].sensor_id == *id {
            let a = from[i].clone();
            out.push(a);
            proof {
                assert(anomaly_views(out@) =~= before.push(a@));
                assert(start + init.push(a@) =~= (start + init).push(a@));
            }
        }
        i = i + 1;
    }
    assert(all.take(i as int) =~= all);
}

/// The view of a sensor over all frames. A request that names no sensor asks for `unknown`.
pub fn sensor_view(frames: &[AggregatedFrame], requested: Option<String>) -> (r: SensorLiveView)
    ensures
        r@ == live_view(
            frame_views(frames@),
            match requested {
                Some(id) => id@,
                None => "unknown"@,
            },
        ),
        ({
            let f = frame_views(frames@);
            let id = match requested {
                Some(id) => id@,
                None => "unknown"@,
            };
            &&& r.sensor_id@ == id
            &&& r.stats is Some <==> exists|k: int|
                0 <= k < f.len() && (#[trigger] f[k]).sensor_stats.contains_key(id)
            &&& forall|k: int|
                0 <= k < r.anomalies@.len() ==> (#[trigger] r.anomalies@[k]).sensor_id@ == id
            &&& r.stats is Some ==> forall|frame: int, i: int|
                0 <= frame < f.len() && 0 <= i < f[frame].anomalies.len()
                    && (#[trigger] f[frame].anomalies[i]).sensor_id == id ==> anomaly_views(
                    r.anomalies@,
                ).contains(f[frame].anomalies[i])
        }),
{
    let sensor_id = match requested {
        Some(id) => id,
        None => "unknown".to_string(),
    };
    let ghost f = frame_views(frames@);
    let ghost id = sensor_id@;
    let mut selected: Option<usize> = None;
    let mut anomalies: Vec<Anomaly> = Vec::new();
    let mut i: usize = 0;
    proof {
        assert(f.take(0) =~= Seq::empty());
        assert(anomaly_views(anomalies@) =~= Seq::empty());
    }
    while i < frames.len()
        invariant
            i <= frames.len(),
            f == frame_views(frames@),
            id == sensor_id@,
            match selected {
                Some(k) => k < i && selected_for(f.take(i as int), id) == Some(f[k as int])
                    && f[k as int].sensor_stats.contains_key(id),
                None => selected_for(f.take(i as int), id) is None,
            },
            anomaly_views(anomalies@) == anomalies_of(f.take(i as int), id),
        decreases frames.len() - i,
    {
        proof {
            assert(f[i as int] == frames@[i as int]@);
            assert(f.take(i + 1).drop_last() =~= f.take(i as int));
            assert(f.take(i + 1).last() == f[i as int]);
        }
        if frames[i].sensor_stats.contains_key(sensor_id.as_str()) {
            match selected {
                Some(k) => {
                    assert(f[k as int] == frames@[k as int]@);
                    if frames[i].window_end > frames[k].window_end {
                        selected = Some(i);
                    }
                },
                None => {
                    selected = Some(i);
                },
            }
        }
        add_own_anomalies(&frames[i].anomalies, &sensor_id, &mut anomalies);
        i = i + 1;
    }
    assert(f.take(i as int) =~= f);
    proof {
        lemma_selected_for(f, id);
        let at = lemma_every_anomaly_is_listed(f, id);
        assert forall|frame: int, i: int|
            0 <= frame < f.len() && 0 <= i < f[frame].anomalies.len()
                && (#[trigger] f[frame].anomalies[i]).sensor_id == id implies anomalies_of(
            f,
            id,
        ).contains(f[frame].anomalies[i]) by {
            let k = choose|k: int| 0 <= k < at.len() && at[k] == (frame, i);
            assert(anomalies_of(f, id)[k] == f[frame].anomalies[i]);
        }
        assert forall|k: int| 0 <= k < anomalies@.len() implies (
        #[trigger] anomalies@[k]).sensor_id@ == id by {
            assert(anomaly_views(anomalies@)[k] == anomalies@[k]@);
            assert(at[k] == at[k]);
        }
    }
    match selected {
        Some(k) => {
            assert(f[k as int] == frames@[k as int]@);
            let stats = match frames[k].sensor_stats.get(sensor_id.as_str()) {
                Some(s) => Some(*s),
                None => None,
            };
            SensorLiveView {
                sensor_id,
                latest_frame_id: Some(frames[k].frame_id),
                latest_window_end: Some(frames[k].window_end),
                stats,
                anomalies,
            }
        },
        None => {
            let none: Vec<Anomaly> = Vec::new();
            assert(anomaly_views(none@) =~= Seq::empty());
            SensorLiveView {
                sensor_id,
                latest_frame_id: None,
                latest_window_end: None,
                stats: None,
                anomalies: none,
            }
        },
    }
}

/// How full an internal queue may get: its usable slots, and the length from which it counts as
/// near full.
#[derive(Clone, Copy, Debug, PartialEq, Eq, Structural)]
pub struct InternalBufferPolicy {
    pub usable_capacity: usize,
    pub near_full_len: usize,
}

/// Live telemetry, as the gateway last reported it.
pub struct TelemetryStore {
    buffer: Option<BufferTelemetrySnapshot>,
    throughput: Option<ThroughputTelemetrySnapshot>,
    policy: Option<InternalBufferPolicy>,
}

impl TelemetryStore {
    /// The statuses of the queues, if they were reported.
    pub closed spec fn reported_buffer(&self) -> Option<BufferTelemetrySnapshot> {
        self.buffer
    }

    /// The throughput, if it was reported.
    pub closed spec fn reported_throughput(&self) -> Option<ThroughputTelemetrySnapshot> {
        self.throughput
    }

    /// The policy, if it was set.
    pub closed spec fn chosen_policy(&self) -> Option<InternalBufferPolicy> {
        self.policy
    }

    /// A store without reports.
    pub fn new() -> (r: Self)
        ensures
            r.reported_buffer() is None,
            r.reported_throughput() is None,
            r.chosen_policy() is None,
    {
        TelemetryStore { buffer: None, throughput: None, policy: None }
    }

    /// Takes a report on the queues, in place of any earlier one.
    pub fn set_buffer_telemetry(&mut self, snapshot: BufferTelemetrySnapshot)
        ensures
            final(self).reported_buffer() == Some(snapshot),
            final(self).reported_throughput() == old(self).reported_throughput(),
            final(self).chosen_policy() == old(self).chosen_policy(),
    {
        self.buffer = Some(snapshot);
    }

    /// Takes a report on the throughput, in place of any earlier one.
    pub fn set_throughput_telemetry(&mut self, snapshot: ThroughputTelemetrySnapshot)
        ensures
            final(self).reported_throughput() == Some(snapshot),
            final(self).reported_buffer() == old(self).reported_buffer(),
            final(self).chosen_policy() == old(self).chosen_policy(),
    {
        self.throughput = Some(snapshot);
    }

    /// Sets the policy, once: a later call changes nothing.
    pub fn set_internal_buffer_policy(&mut self, policy: InternalBufferPolicy)
        ensures
            final(self).chosen_policy() == match old(self).chosen_policy() {
                Some(first) => Some(first),
                None => Some(policy),
            },
            final(self).reported_buffer() == old(self).reported_buffer(),
            final(self).reported_throughput() == old(self).reported_throughput(),
    {
        if self.policy.is_none() {
            self.policy = Some(policy);
        }
    }

    /// The policy that was set. Without one, a queue has 127 usable slots and is near full from
    /// 108 on, which is 85 percent.
    pub fn internal_buffer_policy(&self) -> (r: InternalBufferPolicy)
        ensures
            r == match self.chosen_policy() {
                Some(policy) => policy,
                None => InternalBufferPolicy { usable_capacity: 127, near_full_len: 108 },
            },
    {
        match self.policy {
            Some(policy) => policy,
            None => InternalBufferPolicy { usable_capacity: 127, near_full_len: 108 },
        }
    }

    /// The throughput last reported, or zeros.
    pub fn throughput(&self) -> (r: ThroughputTelemetrySnapshot)
        ensures
            r == match self.reported_throughput() {
                Some(snapshot) => snapshot,
                None => no_throughput(),
            },
    {
        match self.throughput {
            Some(snapshot) => snapshot,
            None => empty_throughput(),
        }
    }

    /// The queue statuses last reported; none where there is no report or it cannot be read.
    pub fn buffer(&self, readable: bool) -> (r: BufferTelemetrySnapshot)
        ensures
            r@ == if readable && self.reported_buffer() is Some {
                self.reported_buffer()->0@
            } else {
                no_telemetry()
            },
    {
        match &self.buffer {
            Some(snapshot) => if readable {
                snapshot.clone()
            } else {
                empty_telemetry()
            },
            None => empty_telemetry(),
        }
    }
}

/// The queue statuses `base`, with the depths that frames record. Where the report could not be
/// read, the first warning says so.
pub fn buffer_answer(
    base: BufferTelemetrySnapshot,
    readable: bool,
    frames: &[AggregatedFrame],
    policy: InternalBufferPolicy,
) -> (r: BufferTelemetrySnapshot)
    ensures
        exists|joined: TelemetryView|
            joins(
                joined,
                base@.sensors,
                frame_views(frames@),
                policy.usable_capacity,
                policy.near_full_len,
            ) && #[trigger] answer_of(joined, readable) == r@,
{
    let mut merged = merge_buffer_telemetry_with_frames(
        base,
        frames,
        policy.usable_capacity,
        policy.near_full_len,
    );
    let ghost joined = merged@;
    if !readable {
        let ghost before = merged.warnings@;
        let notice = "Failed to read buffer telemetry state".to_string();
        merged.warnings.insert(0, notice);
        assert(texts(merged.warnings@) =~= texts(before).insert(
            0,
            "Failed to read buffer telemetry state"@,
        ));
    }
    assert(answer_of(joined, readable) == merged@);
    merged
}

/// A snapshot without sensors.
pub open spec fn no_telemetry() -> TelemetryView {
    TelemetryView {
        sensors: Seq::empty(),
        any_near_full: false,
        any_full: false,
        warnings: Seq::empty(),
    }
}

/// The answer for joined telemetry: with a notice in front where the report was not readable.
pub open spec fn answer_of(
    joined: TelemetryView,
    readable: bool,
) -> TelemetryView {
    if readable {
        joined
    } else {
        TelemetryView {
            warnings: joined.warnings.insert(0, "Failed to read buffer telemetry state"@),
            ..joined
        }
    }
}

/// No throughput.
pub open spec fn no_throughput() -> ThroughputTelemetrySnapshot {
    ThroughputTelemetrySnapshot {
        buffer_len: 0,
        buffer_capacity: 0,
        pushed_total: 0,
        popped_total: 0,
        pushed_per_sec: 0,
        popped_per_sec: 0,
        full_waits_total: 0,
    }
}

/// The throughput before any report, and where the report cannot be read.
pub fn empty_throughput() -> (r: ThroughputTelemetrySnapshot)
    ensures
        r == no_throughput(),
{
    ThroughputTelemetrySnapshot {
        buffer_len: 0,
        buffer_capacity: 0,
        pushed_total: 0,
        popped_total: 0,
        pushed_per_sec: 0,
        popped_per_sec: 0,
        full_waits_total: 0,
    }
}

/// The anomalies of all frames are counted one by one: those of two lists of frames add up, and
/// those of one frame are as many as it has.
pub proof fn lemma_anomaly_total_adds_up(f: Seq<FrameView>, g: Seq<FrameView>, x: FrameView)
    ensures
        anomaly_total(Seq::empty()) == 0,
        anomaly_total(seq![x]) == x.anomalies.len(),
        anomaly_total(f + g) == anomaly_total(f) + anomaly_total(g),
    decreases g.len(),
{
    assert(seq![x].drop_last() =~= Seq::empty());
    if g.len() == 0 {
        assert(f + g =~= f);
    } else {
        lemma_anomaly_total_adds_up(f, g.drop_last(), x);
        assert((f + g).drop_last() =~= f + g.drop_last());
    }
}

/// The latest of the frames stands at a place before which no window ends later, and after which
/// all windows end earlier.
pub proof fn lemma_latest_is_last_of_the_latest(f: Seq<FrameView>) -> (k: int)
    requires
        f.len() > 0,
    ensures
        0 <= k < f.len(),
        latest_of(f) == Some(f[k]),
        forall|j: int| 0 <= j < k ==> (#[trigger] f[j]).window_end <= f[k].window_end,
        forall|j: int| k < j < f.len() ==> (#[trigger] f[j]).window_end < f[k].window_end,
    decreases f.len(),
{
    let init = f.drop_last();
    let last = f.len() - 1;
    if init.len() > 0 {
        let k = lemma_latest_is_last_of_the_latest(init);
        assert forall|j: int| 0 <= j < last implies (#[trigger] f[j]) == init[j] by {}
        assert(f[k] == init[k]);
        if f[k].window_end > f[last].window_end {
            k
        } else {
            last
        }
    } else {
        assert(latest_of(init) is None);
        last
    }
}

/// A sensor counts as seen exactly where some frame has statistics for it.
pub proof fn lemma_seen_where_a_frame_has_it(f: Seq<FrameView>, id: Seq<char>)
    ensures
        is_seen(f, id) <==> exists|k: int|
            0 <= k < f.len() && (#[trigger] f[k]).sensor_stats.dom().contains(id),
{
    if is_seen(f, id) {
        let k = choose|k: int| 0 <= k < f.len() && (#[trigger] f[k]).sensor_stats.contains_key(id);
        assert(f[k].sensor_stats.dom().contains(id));
    }
}

/// The frame that is selected for a sensor stands at a place at which there are statistics for it;
/// where there are some before, that window ends earlier, and where there are some after, no
/// later.
pub proof fn lemma_selected_is_first_of_the_latest(f: Seq<FrameView>, id: Seq<char>) -> (k: int)
    requires
        exists|j: int| 0 <= j < f.len() && (#[trigger] f[j]).sensor_stats.contains_key(id),
    ensures
        0 <= k < f.len(),
        f[k].sensor_stats.contains_key(id),
        selected_for(f, id) == Some(f[k]),
        forall|j: int|
            0 <= j < k && (#[trigger] f[j]).sensor_stats.contains_key(id) ==> f[j].window_end
                < f[k].window_end,
        forall|j: int|
            k < j < f.len() && (#[trigger] f[j]).sensor_stats.contains_key(id) ==> f[j].window_end
                <= f[k].window_end,
    decreases f.len(),
{
    let init = f.drop_last();
    let last = f.len() - 1;
    assert forall|j: int| 0 <= j < last implies (#[trigger] f[j]) == init[j] by {}
    if exists|j: int| 0 <= j < init.len() && (#[trigger] init[j]).sensor_stats.contains_key(id) {
        let k = lemma_selected_is_first_of_the_latest(init, id);
        assert(f[k] == init[k]);
        if f[last].sensor_stats.contains_key(id) && f[last].window_end > f[k].window_end {
            last
        } else {
            k
        }
    } else {
        lemma_selected_for(init, id);
        let j = choose|j: int| 0 <= j < f.len() && (#[trigger] f[j]).sensor_stats.contains_key(id);
        if j < last {
            assert(init[j].sensor_stats.contains_key(id));
        }
        last
    }
}

/// The anomalies of a sensor are all those of all frames that bear its identifier, frame by frame
/// and in the order of each frame. It gives for each the frame and the position in it: none is
/// left out, and none comes twice.
pub proof fn lemma_every_anomaly_is_listed(f: Seq<FrameView>, id: Seq<char>) -> (at: Seq<(int, int)>)
    ensures
        at.len() == anomalies_of(f, id).len(),
        forall|k: int|
            0 <= k < at.len() ==> {
                let (frame, i) = #[trigger] at[k];
                &&& 0 <= frame < f.len()
                &&& 0 <= i < f[frame].anomalies.len()
                &&& f[frame].anomalies[i].sensor_id == id
                &&& anomalies_of(f, id)[k] == f[frame].anomalies[i]
            },
        forall|frame: int, i: int|
            0 <= frame < f.len() && 0 <= i < f[frame].anomalies.len()
                && (#[trigger] f[frame].anomalies[i]).sensor_id == id ==> at.contains((frame, i)),
        forall|a: int, b: int|
            0 <= a < b < at.len() ==> (#[trigger] at[a]).0 < (#[trigger] at[b]).0 || (at[a].0
                == at[b].0 && at[a].1 < at[b].1),
    decreases f.len(),
{
    if f.len() == 0 {
        Seq::empty()
    } else {
        let init = f.drop_last();
        let last = f.len() - 1;
        let v = f[last].anomalies;
        let mine = |a: AnomalyView| a.sensor_id == id;
        let before = lemma_every_anomaly_is_listed(init, id);
        let inner = crate::order::lemma_filter_positions(v, mine);
        let more = inner.map_values(|i: int| (last, i));
        let at = before + more;
        let r = anomalies_of(f, id);
        assert(r == anomalies_of(init, id) + v.filter(mine));
        assert forall|k: int| 0 <= k < at.len() implies {
            let (frame, i) = #[trigger] at[k];
            &&& 0 <= frame < f.len()
            &&& 0 <= i < f[frame].anomalies.len()
            &&& f[frame].anomalies[i].sensor_id == id
            &&& r[k] == f[frame].anomalies[i]
        } by {
            if k < before.len() {
                assert(at[k] == before[k]);
                assert(init[before[k].0] == f[before[k].0]);
            } else {
                assert(at[k] == (last, inner[k - before.len()]));
                assert(mine(v[inner[k - before.len()]]));
            }
        }
        assert forall|frame: int, i: int|
            0 <= frame < f.len() && 0 <= i < f[frame].anomalies.len()
                && (#[trigger] f[frame].anomalies[i]).sensor_id == id implies at.contains(
            (frame, i),
        ) by {
            if frame < last {
                assert(init[frame].anomalies[i].sensor_id == id);
                assert(before.contains((frame, i)));
                let k = choose|k: int| 0 <= k < before.len() && before[k] == (frame, i);
                assert(at[k] == (frame, i));
            } else {
                assert(mine(v[i]));
                assert(inner.contains(i));
                let k = choose|k: int| 0 <= k < inner.len() && inner[k] == i;
                assert(at[before.len() + k] == (frame, i));
            }
        }
        assert forall|a: int, b: int| 0 <= a < b < at.len() implies (#[trigger] at[a]).0 < (
        #[trigger] at[b]).0 || (at[a].0 == at[b].0 && at[a].1 < at[b].1) by {
            if b < before.len() {
                assert(at[a] == before[a] && at[b] == before[b]);
            } else if a < before.len() {
                assert(at[a] == before[a]);
                assert(at[b] == (last, inner[b - before.len()]));
            } else {
                assert(at[a] == (last, inner[a - before.len()]));
                assert(at[b] == (last, inner[b - before.len()]));
                assert(inner[a - before.len()] < inner[b - before.len()]);
            }
        }
        at
    }
}

/// The anomalies of a sensor in two lists of frames are those in the first, then those in the
/// second.
pub proof fn lemma_anomalies_of_two_lists(f: Seq<FrameView>, g: Seq<FrameView>, id: Seq<char>)
    ensures
        anomalies_of(f + g, id) == anomalies_of(f, id) + anomalies_of(g, id),
    decreases g.len(),
{
    if g.len() == 0 {
        assert(f + g =~= f);
        assert(anomalies_of(f, id) + Seq::<AnomalyView>::empty() =~= anomalies_of(f, id));
    } else {
        lemma_anomalies_of_two_lists(f, g.drop_last(), id);
        assert((f + g).drop_last() =~= f + g.drop_last());
        let a = anomalies_of(f, id);
        let b = anomalies_of(g.drop_last(), id);
        let c = own_anomalies(g.last().anomalies, id);
        assert((a + b) + c =~= a + (b + c));
    }
}

/// The view of a sensor: its identifier; where no frame has statistics for it, nothing else; and
/// else identifier, window end and statistics of one frame that has them, after which no such
/// frame ends, and the anomalies of all frames.
pub proof fn lemma_view_of_a_sensor(f: Seq<FrameView>, id: Seq<char>)
    ensures
        live_view(f, id).sensor_id == id,
        (forall|k: int| 0 <= k < f.len() ==> !(#[trigger] f[k]).sensor_stats.contains_key(id))
            ==> live_view(f, id).latest_frame_id is None && live_view(f, id).latest_window_end
            is None && live_view(f, id).stats is None && live_view(f, id).anomalies.len() == 0,
        forall|j: int|
            0 <= j < f.len() && (#[trigger] f[j]).sensor_stats.contains_key(id) ==> live_view(
                f,
                id,
            ).anomalies == anomalies_of(f, id) && live_view(f, id).latest_window_end is Some
                && f[j].window_end <= live_view(f, id).latest_window_end->0,
        live_view(f, id).stats is Some ==> exists|k: int|
            0 <= k < f.len() && (#[trigger] f[k]).sensor_stats.contains_key(id) && live_view(
                f,
                id,
            ).stats == Some(f[k].sensor_stats[id]) && live_view(f, id).latest_frame_id == Some(
                f[k].frame_id,
            ) && live_view(f, id).latest_window_end == Some(f[k].window_end),
        live_view(f, id).stats is Some <==> live_view(f, id).latest_frame_id is Some,
{
    lemma_selected_for(f, id);
    if exists|k: int| 0 <= k < f.len() && (#[trigger] f[k]).sensor_stats.contains_key(id) {
        let k = lemma_selected_is_first_of_the_latest(f, id);
        assert(f[k].sensor_stats.contains_key(id));
    }
}

/// The answer for joined telemetry keeps all its sensors, flags and warnings; where the report
/// was not readable, one warning that says so stands before them.
pub proof fn lemma_answer_keeps_telemetry(joined: TelemetryView, readable: bool)
    ensures
        answer_of(joined, readable).sensors == joined.sensors,
        answer_of(joined, readable).any_full == joined.any_full,
        answer_of(joined, readable).any_near_full == joined.any_near_full,
        answer_of(joined, readable).warnings == if readable {
            joined.warnings
        } else {
            seq!["Failed to read buffer telemetry state"@] + joined.warnings
        },
{
    assert(joined.warnings.insert(0, "Failed to read buffer telemetry state"@) =~= seq![
        "Failed to read buffer telemetry state"@,
    ] + joined.warnings);
}

/// Before any report there is nothing to show.
pub proof fn lemma_nothing_before_a_report()
    ensures
        no_telemetry().sensors.len() == 0,
        no_telemetry().warnings.len() == 0,
        !no_telemetry().any_full,
        !no_telemetry().any_near_full,
        no_throughput().buffer_len == 0,
        no_throughput().buffer_capacity == 0,
        no_throughput().pushed_total == 0,
        no_throughput().popped_total == 0,
        no_throughput().pushed_per_sec == 0,
        no_throughput().popped_per_sec == 0,
        no_throughput().full_waits_total == 0,
{
}

/// What is said of the view of a sensor is what it holds.
pub proof fn lemma_live_view_says_what_it_holds(v: &SensorLiveView)
    ensures
        v@.sensor_id == v.sensor_id@,
        v@.latest_frame_id == v.latest_frame_id,
        v@.latest_window_end == v.latest_window_end,
        v@.stats == v.stats,
        v@.anomalies.len() == v.anomalies@.len(),
        forall|k: int|
            0 <= k < v.anomalies@.len() ==> #[trigger] v@.anomalies[k] == v.anomalies@[k]@,
{
}

} // verus!
