//! The data that the pipeline passes on: readings, frames, statistics and telemetry.
//!
//! Measured values are single-precision numbers. They are carried as their bit patterns, which
//! nothing here interprets.
use vstd::prelude::*;
use crate::id_map::IdMap;

verus! {

/// One temperature sample, in degrees Celsius.
#[derive(Clone, Copy, Debug, PartialEq, Eq, Structural)]
pub struct ThermoReading {
    pub temperature_celsius: u32,
}

/// One acceleration sample along three axes.
#[derive(Clone, Copy, Debug, PartialEq, Eq, Structural)]
pub struct AccelReading {
    pub acceleration_x: u32,
    pub acceleration_y: u32,
    pub acceleration_z: u32,
}

/// One force sample along three axes.
#[derive(Clone, Copy, Debug, PartialEq, Eq, Structural)]
pub struct ForceReading {
    pub force_x: u32,
    pub force_y: u32,
    pub force_z: u32,
}

/// Statistics over the readings of one sensor in one window.
#[derive(Clone, Copy, Debug, PartialEq, Eq, Structural)]
pub struct SensorStats {
    pub count: usize,
    pub min: u32,
    pub max: u32,
    pub sum: u32,
    pub sum_sq: u32,
    pub avg: u32,
    pub stddev: u32,
}

/// The texts of a list of strings.
pub open spec fn texts(v: Seq<String>) -> Seq<Seq<char>> {
    v.map_values(|s: String| s@)
}

/// A reading that stands out.
#[derive(Debug)]
pub struct Anomaly {
    pub sensor_id: String,
    pub anomaly_type: String,
    pub severity: u32,
    pub description: String,
}

/// What an anomaly says.
pub struct AnomalyView {
    pub sensor_id: Seq<char>,
    pub anomaly_type: Seq<char>,
    pub severity: u32,
    pub description: Seq<char>,
}

impl View for Anomaly {
    type V = AnomalyView;

    open spec fn view(&self) -> AnomalyView {
        AnomalyView {
            sensor_id: self.sensor_id@,
            anomaly_type: self.anomaly_type@,
            severity: self.severity,
            description: self.description@,
        }
    }
}

impl Clone for Anomaly {
    fn clone(&self) -> (r: Self)
        ensures
            r == *self,
            r@ == self@,
    {
        Anomaly {
            sensor_id: self.sensor_id.clone(),
            anomaly_type: self.anomaly_type.clone(),
            severity: self.severity,
            description: self.description.clone(),
        }
    }
}

/// What a list of anomalies says.
pub open spec fn anomaly_views(v: Seq<Anomaly>) -> Seq<AnomalyView> {
    v.map_values(|a: Anomaly| a@)
}

/// Copies a list of anomalies.
pub fn clone_anomalies(v: &Vec<Anomaly>) -> (r: Vec<Anomaly>)
    ensures
        r@ == v@,
{
    let mut r: Vec<Anomaly> = Vec::new();
    let mut i: usize = 0;
    while i < v.len()
        invariant
            i <= v.len(),
            r@ == v@.take(i as int),
        decreases v.len() - i,
    {
        r.push(v[i].clone());
        i = i + 1;
        assert(r@ =~= v@.take(i as int));
    }
    assert(r@ =~= v@);
    r
}

/// What was seen of all sensors in one window.
#[derive(Debug)]
pub struct AggregatedFrame {
    pub frame_id: u64,
    pub window_start: u64,
    pub window_end: u64,
    pub sensor_stats: IdMap<SensorStats>,
    pub anomalies: Vec<Anomaly>,
    /// Per sensor, the largest internal queue depth seen on any sample of the window.
    pub sensor_internal_buffer_max: IdMap<usize>,
}

/// What a frame says.
pub struct FrameView {
    pub frame_id: u64,
    pub window_start: u64,
    pub window_end: u64,
    pub sensor_stats: Map<Seq<char>, SensorStats>,
    pub anomalies: Seq<AnomalyView>,
    pub sensor_internal_buffer_max: Map<Seq<char>, usize>,
}

impl View for AggregatedFrame {
    type V = FrameView;

    open spec fn view(&self) -> FrameView {
        FrameView {
            frame_id: self.frame_id,
            window_start: self.window_start,
            window_end: self.window_end,
            sensor_stats: self.sensor_stats@,
            anomalies: anomaly_views(self.anomalies@),
            sensor_internal_buffer_max: self.sensor_internal_buffer_max@,
        }
    }
}

impl Clone for AggregatedFrame {
    fn clone(&self) -> (r: Self)
        ensures
            r@ == self@,
    {
        AggregatedFrame {
            frame_id: self.frame_id,
            window_start: self.window_start,
            window_end: self.window_end,
            sensor_stats: self.sensor_stats.clone(),
            anomalies: clone_anomalies(&self.anomalies),
            sensor_internal_buffer_max: self.sensor_internal_buffer_max.clone(),
        }
    }
}

/// What a list of frames says.
pub open spec fn frame_views(v: Seq<AggregatedFrame>) -> Seq<FrameView> {
    v.map_values(|f: AggregatedFrame| f@)
}

/// Copies a list of frames.
pub fn clone_frames(v: &Vec<AggregatedFrame>) -> (r: Vec<AggregatedFrame>)
    ensures
        frame_views(r@) == frame_views(v@),
{
    let mut r: Vec<AggregatedFrame> = Vec::new();
    let mut i: usize = 0;
    while i < v.len()
        invariant
            i <= v.len(),
            frame_views(r@) == frame_views(v@).take(i as int),
        decreases v.len() - i,
    {
        let ghost before = frame_views(r@);
        let f = v[i].clone();
        r.push(f);
        i = i + 1;
        proof {
            assert(frame_views(r@) =~= before.push(f@));
            assert(frame_views(r@) =~= frame_views(v@).take(i as int));
        }
    }
    assert(frame_views(v@).take(i as int) =~= frame_views(v@));
    r
}

/// How full the internal queue of one sensor is.
#[derive(Debug)]
pub struct SensorBufferStatus {
    pub sensor_id: String,
    pub current_len: usize,
    pub capacity: usize,
    pub peak_len: usize,
    pub near_full: bool,
    pub full: bool,
}

/// What a sensor's queue status says.
pub struct StatusView {
    pub sensor_id: Seq<char>,
    pub current_len: usize,
    pub capacity: usize,
    pub peak_len: usize,
    pub near_full: bool,
    pub full: bool,
}

impl View for SensorBufferStatus {
    type V = StatusView;

    open spec fn view(&self) -> StatusView {
        StatusView {
            sensor_id: self.sensor_id@,
            current_len: self.current_len,
            capacity: self.capacity,
            peak_len: self.peak_len,
            near_full: self.near_full,
            full: self.full,
        }
    }
}

impl Clone for SensorBufferStatus {
    fn clone(&self) -> (r: Self)
        ensures
            r == *self,
            r@ == self@,
    {
        SensorBufferStatus {
            sensor_id: self.sensor_id.clone(),
            current_len: self.current_len,
            capacity: self.capacity,
            peak_len: self.peak_len,
            near_full: self.near_full,
            full: self.full,
        }
    }
}

/// What a list of queue statuses says.
pub open spec fn status_views(v: Seq<SensorBufferStatus>) -> Seq<StatusView> {
    v.map_values(|s: SensorBufferStatus| s@)
}

/// How full the internal queues of all sensors are.
#[derive(Debug)]
pub struct BufferTelemetrySnapshot {
    pub sensors: Vec<SensorBufferStatus>,
    pub any_near_full: bool,
    pub any_full: bool,
    pub warnings: Vec<String>,
}

/// What a telemetry snapshot says.
pub struct TelemetryView {
    pub sensors: Seq<StatusView>,
    pub any_near_full: bool,
    pub any_full: bool,
    pub warnings: Seq<Seq<char>>,
}

impl View for BufferTelemetrySnapshot {
    type V = TelemetryView;

    open spec fn view(&self) -> TelemetryView {
        TelemetryView {
            sensors: status_views(self.sensors@),
            any_near_full: self.any_near_full,
            any_full: self.any_full,
            warnings: texts(self.warnings@),
        }
    }
}

impl Clone for BufferTelemetrySnapshot {
    fn clone(&self) -> (r: Self)
        ensures
            r@ == self@,
    {
        let mut sensors: Vec<SensorBufferStatus> = Vec::new();
        let mut i: usize = 0;
        while i < self.sensors.len()
            invariant
                i <= self.sensors.len(),
                sensors@ == self.sensors@.take(i as int),
            decreases self.sensors.len() - i,
        {
            sensors.push(self.sensors[i].clone());
            i = i + 1;
            assert(sensors@ =~= self.sensors@.take(i as int));
        }
        assert(sensors@ =~= self.sensors@);
        let mut warnings: Vec<String> = Vec::new();
        let mut k: usize = 0;
        while k < self.warnings.len()
            invariant
                k <= self.warnings.len(),
                warnings@ == self.warnings@.take(k as int),
            decreases self.warnings.len() - k,
        {
            warnings.push(self.warnings[k].clone());
            k = k + 1;
            assert(warnings@ =~= self.warnings@.take(k as int));
        }
        assert(warnings@ =~= self.warnings@);
        BufferTelemetrySnapshot {
            sensors,
            any_near_full: self.any_near_full,
            any_full: self.any_full,
            warnings,
        }
    }
}

/// How many readings pass through the shared buffer.
#[derive(Clone, Copy, Debug, PartialEq, Eq, Structural)]
pub struct ThroughputTelemetrySnapshot {
    pub buffer_len: usize,
    pub buffer_capacity: usize,
    pub pushed_total: u64,
    pub popped_total: u64,
    pub pushed_per_sec: u64,
    pub popped_per_sec: u64,
    pub full_waits_total: u64,
}

/// What is said of an anomaly is what it holds.
pub proof fn lemma_anomaly_says_what_it_holds(a: &Anomaly)
    ensures
        a@.sensor_id == a.sensor_id@,
        a@.anomaly_type == a.anomaly_type@,
        a@.severity == a.severity,
        a@.description == a.description@,
{
}

/// What is said of a frame is what it holds, anomaly by anomaly.
pub proof fn lemma_frame_says_what_it_holds(f: &AggregatedFrame)
    ensures
        f@.frame_id == f.frame_id,
        f@.window_start == f.window_start,
        f@.window_end == f.window_end,
        f@.sensor_stats == f.sensor_stats@,
        f@.sensor_internal_buffer_max == f.sensor_internal_buffer_max@,
        f@.anomalies.len() == f.anomalies@.len(),
        forall|k: int| 0 <= k < f.anomalies@.len() ==> #[trigger] f@.anomalies[k] == f.anomalies@[k]@,
{
}

/// What is said of a list of frames is what is said of each, in order.
pub proof fn lemma_frames_say_what_they_hold(v: Seq<AggregatedFrame>)
    ensures
        frame_views(v).len() == v.len(),
        forall|k: int| 0 <= k < v.len() ==> #[trigger] frame_views(v)[k] == v[k]@,
{
}

/// What is said of a telemetry snapshot is what it holds, sensor by sensor and warning by warning.
pub proof fn lemma_telemetry_says_what_it_holds(t: &BufferTelemetrySnapshot)
    ensures
        t@.any_full == t.any_full,
        t@.any_near_full == t.any_near_full,
        t@.sensors.len() == t.sensors@.len(),
        forall|k: int|
            0 <= k < t.sensors@.len() ==> {
                let s = #[trigger] t@.sensors[k];
                &&& s.sensor_id == t.sensors@[k].sensor_id@
                &&& s.current_len == t.sensors@[k].current_len
                &&& s.capacity == t.sensors@[k].capacity
                &&& s.peak_len == t.sensors@[k].peak_len
                &&& s.near_full == t.sensors@[k].near_full
                &&& s.full == t.sensors@[k].full
            },
        t@.warnings.len() == t.warnings@.len(),
        forall|k: int| 0 <= k < t.warnings@.len() ==> #[trigger] t@.warnings[k] == t.warnings@[k]@,
{
}

} // verus!
