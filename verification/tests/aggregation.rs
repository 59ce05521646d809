use sensor_pipeline::aggregation::{
    detect_anomalies, make_frame, AggregationEngine, ClaimedWindow, Deviation, SensorFigures,
    SensorOutcome,
};
use sensor_pipeline::models::ThermoReading;
use sensor_pipeline::sensor_buffer::{PushOutcome, SensorBufferManager, SensorReading, TimedPop};

fn reading(id: &str, ts: u64, depth: usize) -> SensorReading {
    SensorReading::Thermo(ThermoReading { temperature_celsius: 0 }, id.to_string(), ts, depth)
}

fn figures(n: u32) -> SensorFigures {
    SensorFigures { min: n, max: n + 1, sum: n + 2, sum_sq: n + 3, avg: n + 4, stddev: n + 5 }
}

fn shape(w: &ClaimedWindow) -> (u64, u64, u64, usize) {
    let mut n = 0;
    for i in 0..w.readings.len() {
        n += w.readings.value_at(i).len();
    }
    (w.frame_id, w.window_start, w.window_end, n)
}

fn finish(e: &mut AggregationEngine) -> Vec<ClaimedWindow> {
    e.shutdown();
    e.begin_round(0).expect("all windows are handed out at the end")
}

#[test]
fn readings_go_to_the_window_of_their_time() {
    let mut e = AggregationEngine::new(1000);
    e.add_reading(reading("a", 999, 1));
    e.add_reading(reading("a", 1000, 1));
    e.add_reading(reading("b", 1999, 1));
    e.add_reading(reading("a", 0, 1));
    let all: Vec<_> = finish(&mut e).iter().map(shape).collect();
    assert_eq!(all, vec![(0, 0, 1000, 2), (1, 1000, 2000, 2)]);
    assert!(finish(&mut e).is_empty());
}

#[test]
fn windows_wait_for_end_and_grace() {
    let mut e = AggregationEngine::new(1000);
    e.add_reading(reading("a", 2500, 1));
    e.add_reading(reading("a", 1500, 1));
    assert!(e.claim_ready(2499).is_empty());
    let first: Vec<_> = e.claim_ready(2500).iter().map(shape).collect();
    assert_eq!(first, vec![(0, 1000, 2000, 1)]);
    let second: Vec<_> = e.claim_ready(10_000).iter().map(shape).collect();
    assert_eq!(second, vec![(1, 2000, 3000, 1)]);
}

#[test]
fn grace_is_at_least_fifty_milliseconds() {
    let mut e = AggregationEngine::new(10);
    e.add_reading(reading("a", 5, 1));
    assert!(e.claim_ready(59).is_empty());
    assert_eq!(e.claim_ready(60).len(), 1);
    let mut zero = AggregationEngine::new(0);
    zero.add_reading(reading("a", 5, 1));
    assert_eq!(shape(&finish(&mut zero)[0]), (0, 5, 6, 1));
}

#[test]
fn frame_ids_follow_windows_claimed_together() {
    let mut e = AggregationEngine::new(100);
    for ts in [950, 50, 450, 250] {
        e.add_reading(reading("a", ts, 1));
    }
    let claimed: Vec<_> = e.claim_ready(100_000).iter().map(shape).collect();
    assert_eq!(
        claimed,
        vec![(0, 0, 100, 1), (1, 200, 300, 1), (2, 400, 500, 1), (3, 900, 1000, 1)]
    );
}

#[test]
fn rounds_end_once_asked_for_and_drained() {
    let mut e = AggregationEngine::new(1000);
    assert!(e.begin_round(0).is_none());
    assert!(e.end_round(Some(reading("a", 1500, 1)), 1600).is_empty());
    e.shutdown();
    assert!(e.begin_round(1).is_none());
    assert!(e.end_round(None, 1700).is_empty());
    let rest = e.begin_round(0).expect("all windows are handed out at the end");
    assert_eq!(rest.len(), 1);
    assert_eq!(shape(&rest[0]), (0, 1000, 2000, 1));
    let late: Vec<_> = e.end_round(Some(reading("a", 100, 1)), 9000).iter().map(shape).collect();
    assert_eq!(late, vec![(1, 0, 1000, 1)]);
}

#[test]
fn times_at_the_end_of_the_clock_are_not_accepted() {
    let e = AggregationEngine::new(1000);
    assert!(e.accepts(0));
    assert!(e.accepts(u64::MAX - 3000));
    assert!(!e.accepts(u64::MAX));
}

#[test]
fn frame_takes_counts_depths_and_anomalies() {
    let mut e = AggregationEngine::new(1000);
    e.add_reading(reading("b", 10, 7));
    e.add_reading(reading("a", 20, 2));
    e.add_reading(reading("a", 30, 9));
    e.add_reading(reading("a", 40, 4));
    let claimed = finish(&mut e);
    let outcomes = vec![
        SensorOutcome {
            figures: figures(10),
            deviations: vec![
                None,
                Some(Deviation {
                    severity: 3.5f32.to_bits(),
                    value: "29.5".to_string(),
                    mean: "25".to_string(),
                }),
                None,
            ],
        },
        SensorOutcome { figures: figures(20), deviations: vec![None] },
    ];
    let f = make_frame(&claimed[0], &outcomes);
    assert_eq!((f.frame_id, f.window_start, f.window_end), (0, 0, 1000));
    let a = f.sensor_stats.get("a").unwrap();
    assert_eq!((a.count, a.min, a.max, a.sum, a.sum_sq, a.avg, a.stddev), (3, 10, 11, 12, 13, 14, 15));
    assert_eq!(f.sensor_stats.get("b").unwrap().count, 1);
    assert!(f.sensor_stats.get("c").is_none());
    assert_eq!(f.sensor_internal_buffer_max.get("a"), Some(&9));
    assert_eq!(f.sensor_internal_buffer_max.get("b"), Some(&7));
    assert_eq!(f.anomalies.len(), 1);
    assert_eq!(f.anomalies[0].sensor_id, "a");
    assert_eq!(f.anomalies[0].anomaly_type, "Deviation");
    assert_eq!(f32::from_bits(f.anomalies[0].severity), 3.5);
    assert_eq!(f.anomalies[0].description, "Value 29.5 deviates from mean 25");
}

#[test]
fn anomalies_are_added_in_reading_order() {
    let deviation = |v: &str| {
        Some(Deviation { severity: 1, value: v.to_string(), mean: "0".to_string() })
    };
    let mut out = Vec::new();
    detect_anomalies(&"x".to_string(), &vec![deviation("1"), None, deviation("2")], &mut out);
    detect_anomalies(&"y".to_string(), &vec![deviation("3")], &mut out);
    let got: Vec<(&str, &str)> =
        out.iter().map(|a| (a.sensor_id.as_str(), a.description.as_str())).collect();
    assert_eq!(
        got,
        vec![
            ("x", "Value 1 deviates from mean 0"),
            ("x", "Value 2 deviates from mean 0"),
            ("y", "Value 3 deviates from mean 0"),
        ]
    );
}

#[test]
fn every_reading_is_handed_out_once() {
    let mut e = AggregationEngine::new(1000);
    let pulls = [(1500, 1600), (2100, 2600), (1700, 2700), (2200, 3600), (900, 3700)];
    let mut handed = Vec::new();
    for (ts, now) in pulls {
        for w in e.end_round(Some(reading("a", ts, 1)), now) {
            let list = w.readings.get("a").unwrap();
            handed.push((w.window_start, list.iter().map(|r| r.timestamp_millis()).collect()));
        }
    }
    for w in finish(&mut e) {
        let list = w.readings.get("a").unwrap();
        handed.push((w.window_start, list.iter().map(|r| r.timestamp_millis()).collect()));
    }
    let expected: Vec<(u64, Vec<u64>)> = vec![
        (1000, vec![1500]),
        (1000, vec![1700]),
        (2000, vec![2100, 2200]),
        (0, vec![900]),
    ];
    assert_eq!(handed, expected);
}

fn outcomes(w: &ClaimedWindow) -> Vec<SensorOutcome> {
    (0..w.readings.len())
        .map(|i| SensorOutcome {
            figures: figures(i as u32),
            deviations: w.readings.value_at(i).iter().map(|_| None).collect(),
        })
        .collect()
}

#[test]
fn windows_of_all_rounds_are_aligned_ready_and_numbered() {
    let mut e = AggregationEngine::new(100);
    let mut next = 0;
    for i in 0..200u64 {
        let ts = (i * 37) % 1000 + i * 5;
        let now = 600 + i * 5;
        for w in e.end_round(Some(reading("a", ts, 1)), now) {
            assert_eq!((w.window_start % 100, w.window_end), (0, w.window_start + 100));
            assert!(now >= w.window_end + 50);
            assert_eq!(w.frame_id, next);
            next += 1;
            let list = w.readings.get("a").unwrap();
            assert!(!list.is_empty());
            for r in list.iter() {
                assert!(w.window_start <= r.timestamp_millis());
                assert!(r.timestamp_millis() < w.window_end);
            }
        }
    }
    e.shutdown();
    for w in e.begin_round(0).unwrap() {
        assert_eq!(w.frame_id, next);
        next += 1;
    }
    assert!(next > 10);
}

#[test]
fn shutdown_frames_count_every_reading_pushed() {
    let mut buffer = SensorBufferManager::new(100, 0);
    let mut e = AggregationEngine::new(1000);
    for i in 0..60u64 {
        let id = if i % 3 == 0 { "a" } else { "b" };
        assert!(matches!(buffer.push(reading(id, 1000 + i * 71, 1)), PushOutcome::Stored));
    }
    e.shutdown();
    let mut counts = Vec::new();
    let mut now = 2500;
    loop {
        let buffered = buffer.len();
        let (claimed, ended) = match e.begin_round(buffered) {
            Some(rest) => (rest, true),
            None => {
                let pulled = match buffer.pop_timeout(true) {
                    TimedPop::Popped(r) => Some(r),
                    _ => None,
                };
                (e.end_round(pulled, now), false)
            }
        };
        for w in claimed {
            let frame = make_frame(&w, &outcomes(&w));
            for i in 0..frame.sensor_stats.len() {
                counts.push(frame.sensor_stats.value_at(i).count);
            }
        }
        if ended {
            break;
        }
        now += 40;
    }
    assert_eq!(counts.iter().sum::<usize>(), 60);
    assert_eq!(buffer.len(), 0);
    e.shutdown();
    assert!(e.begin_round(0).unwrap().is_empty());
}
