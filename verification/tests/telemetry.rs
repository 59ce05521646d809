use sensor_pipeline::id_map::IdMap;
use sensor_pipeline::models::{AggregatedFrame, BufferTelemetrySnapshot, SensorBufferStatus};
use sensor_pipeline::telemetry::{
    empty_telemetry, merge_buffer_telemetry_with_frames, NearFullSearch,
};

fn near_full_len(capacity: usize, ratio: f64) -> usize {
    let mut search = NearFullSearch::new(capacity);
    while let Some(len) = search.probe() {
        search.answer(len, len as f64 / capacity as f64 >= ratio);
    }
    search.found()
}

fn row(id: &str, current_len: usize, peak_len: usize) -> SensorBufferStatus {
    SensorBufferStatus {
        sensor_id: id.to_string(),
        current_len,
        capacity: 1,
        peak_len,
        near_full: true,
        full: true,
    }
}

fn frame(depths: &[(&str, usize)]) -> AggregatedFrame {
    let mut map = IdMap::new();
    for (id, n) in depths {
        map.insert(id.to_string(), *n);
    }
    AggregatedFrame {
        frame_id: 0,
        window_start: 0,
        window_end: 0,
        sensor_stats: IdMap::new(),
        anomalies: Vec::new(),
        sensor_internal_buffer_max: map,
    }
}

#[test]
fn search_finds_first_length_at_ratio() {
    assert_eq!(near_full_len(127, 0.85), 108);
    assert_eq!(near_full_len(10, 0.5), 5);
    assert_eq!(near_full_len(10, 0.0), 0);
    assert_eq!(near_full_len(10, 2.0), 10);
    assert_eq!(near_full_len(0, 0.5), 0);
    for capacity in 1..40 {
        for step in 0..=20 {
            let ratio = step as f64 / 20.0;
            let found = near_full_len(capacity, ratio);
            for len in 0..capacity {
                assert_eq!(len as f64 / capacity as f64 >= ratio, len >= found);
            }
        }
    }
}

#[test]
fn frames_raise_peaks_and_add_sensors() {
    let base = BufferTelemetrySnapshot {
        sensors: vec![row("b", 3, 4), row("a", 9, 9)],
        any_near_full: false,
        any_full: true,
        warnings: vec!["old".to_string()],
    };
    let frames = vec![frame(&[("b", 8), ("c", 2)]), frame(&[("b", 6), ("d", 10)])];
    let out = merge_buffer_telemetry_with_frames(base, &frames, 10, 8);
    let rows: Vec<(&str, usize, usize, usize, bool, bool)> = out
        .sensors
        .iter()
        .map(|s| (s.sensor_id.as_str(), s.current_len, s.peak_len, s.capacity, s.near_full, s.full))
        .collect();
    assert_eq!(
        rows,
        vec![
            ("a", 9, 9, 10, true, false),
            ("b", 3, 8, 10, true, false),
            ("c", 0, 2, 10, false, false),
            ("d", 0, 10, 10, false, true),
        ]
    );
    assert!(out.any_near_full && out.any_full);
    assert_eq!(
        out.warnings,
        vec![
            "Sensor a internal buffer is near full (9/10)".to_string(),
            "Sensor b internal buffer is near full (8/10)".to_string(),
            "Sensor d internal buffer is FULL (10/10)".to_string(),
        ]
    );
}

#[test]
fn full_warning_names_the_worse_length() {
    let base = BufferTelemetrySnapshot {
        sensors: vec![row("a", 11, 13)],
        any_near_full: false,
        any_full: false,
        warnings: Vec::new(),
    };
    let out = merge_buffer_telemetry_with_frames(base, &[], 10, 8);
    assert_eq!(out.warnings, vec!["Sensor a internal buffer is FULL (13/10)".to_string()]);
}

#[test]
fn first_row_of_a_sensor_counts() {
    let base = BufferTelemetrySnapshot {
        sensors: vec![row("a", 1, 2), row("a", 7, 9)],
        any_near_full: false,
        any_full: false,
        warnings: Vec::new(),
    };
    let out = merge_buffer_telemetry_with_frames(base, &[], 10, 8);
    assert_eq!(out.sensors.len(), 1);
    assert_eq!((out.sensors[0].current_len, out.sensors[0].peak_len), (1, 2));
}

#[test]
fn queue_without_capacity_raises_no_flag() {
    let base = BufferTelemetrySnapshot {
        sensors: vec![row("a", 5, 5)],
        any_near_full: true,
        any_full: true,
        warnings: Vec::new(),
    };
    let out = merge_buffer_telemetry_with_frames(base, &[], 0, 0);
    assert!(!out.any_full && !out.any_near_full);
    assert!(out.warnings.is_empty());
    assert_eq!(out.sensors.len(), 1);
    assert!(empty_telemetry().sensors.is_empty());
}
