use sensor_pipeline::dashboard::{
    buffer_answer, empty_throughput, sensor_view, system_stats, InternalBufferPolicy,
    TelemetryStore,
};
use sensor_pipeline::id_map::IdMap;
use sensor_pipeline::models::{
    AggregatedFrame, Anomaly, BufferTelemetrySnapshot, SensorBufferStatus, SensorStats,
    ThroughputTelemetrySnapshot,
};

fn stats(count: usize) -> SensorStats {
    SensorStats { count, min: 1, max: 2, sum: 3, sum_sq: 4, avg: 5, stddev: 6 }
}

fn anomaly(sensor_id: &str, severity: u32) -> Anomaly {
    Anomaly {
        sensor_id: sensor_id.to_string(),
        anomaly_type: "Deviation".to_string(),
        severity,
        description: "d".to_string(),
    }
}

fn frame(frame_id: u64, window_end: u64, seen: &[(&str, usize)], odd: &[(&str, u32)]) -> AggregatedFrame {
    let mut sensor_stats = IdMap::new();
    for (id, count) in seen {
        sensor_stats.insert(id.to_string(), stats(*count));
    }
    AggregatedFrame {
        frame_id,
        window_start: 0,
        window_end,
        sensor_stats,
        anomalies: odd.iter().map(|(id, s)| anomaly(id, *s)).collect(),
        sensor_internal_buffer_max: IdMap::new(),
    }
}

#[test]
fn stats_over_all_frames() {
    let frames = vec![
        frame(1, 100, &[("b", 1), ("a", 1)], &[("a", 1), ("b", 2)]),
        frame(2, 300, &[("c", 1)], &[]),
        frame(3, 300, &[("a", 1)], &[("c", 3)]),
        frame(4, 200, &[], &[]),
    ];
    let s = system_stats(&frames);
    assert_eq!((s.total_frames, s.total_anomalies), (4, 3));
    assert_eq!((s.latest_frame_id, s.latest_window_end), (Some(3), Some(300)));
    assert_eq!(s.sensors_seen, vec!["a".to_string(), "b".to_string(), "c".to_string()]);
}

#[test]
fn stats_without_frames() {
    let s = system_stats(&[]);
    assert_eq!((s.total_frames, s.total_anomalies), (0, 0));
    assert_eq!((s.latest_frame_id, s.latest_window_end), (None, None));
    assert!(s.sensors_seen.is_empty());
}

#[test]
fn sensor_view_takes_first_of_latest_and_all_anomalies() {
    let frames = vec![
        frame(1, 100, &[("a", 10)], &[("a", 1), ("b", 2)]),
        frame(2, 300, &[("a", 20)], &[("a", 3)]),
        frame(3, 300, &[("a", 30)], &[]),
        frame(4, 400, &[("b", 40)], &[("a", 4)]),
    ];
    let v = sensor_view(&frames, Some("a".to_string()));
    assert_eq!(v.sensor_id, "a");
    assert_eq!((v.latest_frame_id, v.latest_window_end), (Some(2), Some(300)));
    assert_eq!(v.stats, Some(stats(20)));
    let severities: Vec<u32> = v.anomalies.iter().map(|a| a.severity).collect();
    assert_eq!(severities, vec![1, 3, 4]);
}

#[test]
fn sensor_view_of_unseen_sensor_is_empty() {
    let frames = vec![frame(1, 100, &[("a", 10)], &[("ghost", 1), ("unknown", 2)])];
    let v = sensor_view(&frames, Some("ghost".to_string()));
    assert_eq!((v.latest_frame_id, v.latest_window_end, v.stats), (None, None, None));
    assert!(v.anomalies.is_empty());
    let u = sensor_view(&frames, None);
    assert_eq!(u.sensor_id, "unknown");
    assert!(u.anomalies.is_empty());
}

fn telemetry() -> BufferTelemetrySnapshot {
    BufferTelemetrySnapshot {
        sensors: vec![SensorBufferStatus {
            sensor_id: "a".to_string(),
            current_len: 110,
            capacity: 127,
            peak_len: 120,
            near_full: true,
            full: false,
        }],
        any_near_full: true,
        any_full: false,
        warnings: vec!["w".to_string()],
    }
}

#[test]
fn store_answers_with_last_report() {
    let mut store = TelemetryStore::new();
    assert_eq!(store.throughput(), empty_throughput());
    let t = ThroughputTelemetrySnapshot {
        buffer_len: 1,
        buffer_capacity: 2,
        pushed_total: 3,
        popped_total: 4,
        pushed_per_sec: 5,
        popped_per_sec: 6,
        full_waits_total: 7,
    };
    store.set_throughput_telemetry(t);
    assert_eq!(store.throughput(), t);
    assert!(store.buffer(true).sensors.is_empty());
    store.set_buffer_telemetry(telemetry());
    assert_eq!(store.buffer(true).sensors.len(), 1);
    assert_eq!(store.buffer(true).warnings, vec!["w".to_string()]);
    let b = buffer_answer(store.buffer(true), true, &[], store.internal_buffer_policy());
    assert_eq!(b.warnings, vec!["Sensor a internal buffer is near full (110/127)".to_string()]);
}

#[test]
fn unreadable_report_is_announced() {
    let mut store = TelemetryStore::new();
    store.set_buffer_telemetry(telemetry());
    let mut f = frame(1, 1, &[], &[]);
    f.sensor_internal_buffer_max.insert("z".to_string(), 127);
    assert!(store.buffer(false).sensors.is_empty());
    let b = buffer_answer(store.buffer(false), false, &[f], store.internal_buffer_policy());
    assert_eq!(b.sensors.len(), 1);
    assert_eq!(
        b.warnings,
        vec![
            "Failed to read buffer telemetry state".to_string(),
            "Sensor z internal buffer is FULL (127/127)".to_string(),
        ]
    );
}

#[test]
fn first_policy_stays() {
    let mut store = TelemetryStore::new();
    assert_eq!(
        store.internal_buffer_policy(),
        InternalBufferPolicy { usable_capacity: 127, near_full_len: 108 }
    );
    let first = InternalBufferPolicy { usable_capacity: 10, near_full_len: 5 };
    store.set_internal_buffer_policy(first);
    store.set_internal_buffer_policy(InternalBufferPolicy { usable_capacity: 20, near_full_len: 6 });
    assert_eq!(store.internal_buffer_policy(), first);
}

#[test]
fn telemetry_copies_are_equal() {
    let t = telemetry();
    let c = t.clone();
    assert_eq!(c.warnings, t.warnings);
    assert_eq!((c.any_near_full, c.any_full), (true, false));
    assert_eq!(c.sensors[0].sensor_id, "a");
    assert_eq!(c.sensors[0].peak_len, 120);
    assert_eq!(c.sensors[0].clone().sensor_id, "a");
}
