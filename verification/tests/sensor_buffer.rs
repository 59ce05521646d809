use sensor_pipeline::models::{AccelReading, ForceReading, ThermoReading};
use sensor_pipeline::sensor_buffer::{
    overflow_message, PushOutcome, SensorBufferManager, SensorReading, SharedBuffer, TimedPop,
};

fn thermo(id: &str, ts: u64) -> SensorReading {
    SensorReading::Thermo(ThermoReading { temperature_celsius: 1 }, id.to_string(), ts, 3)
}

#[test]
fn readings_know_sensor_time_and_depth() {
    let a = SensorReading::Accel(
        AccelReading { acceleration_x: 1, acceleration_y: 2, acceleration_z: 3 },
        "accel-1".to_string(),
        10,
        4,
    );
    let f = SensorReading::Force(
        ForceReading { force_x: 1, force_y: 2, force_z: 3 },
        "force-1".to_string(),
        20,
        5,
    );
    let t = thermo("thermo-1", 30);
    assert_eq!((a.sensor_id(), a.timestamp_millis(), a.internal_len()), ("accel-1", 10, 4));
    assert_eq!((f.sensor_id(), f.timestamp_millis(), f.internal_len()), ("force-1", 20, 5));
    assert_eq!((t.sensor_id(), t.timestamp_millis(), t.internal_len()), ("thermo-1", 30, 3));
}

#[test]
fn buffer_is_first_in_first_out() {
    let mut b = SharedBuffer::new_with_policy(3, false);
    for ts in 1..=3 {
        assert!(matches!(b.push(thermo("a", ts)), PushOutcome::Stored));
    }
    assert_eq!(b.try_pop().unwrap().timestamp_millis(), 1);
    assert!(matches!(b.push(thermo("a", 4)), PushOutcome::Stored));
    assert_eq!(b.pop().unwrap().timestamp_millis(), 2);
    match b.pop_timeout(false) {
        TimedPop::Popped(r) => assert_eq!(r.timestamp_millis(), 3),
        _ => panic!("a reading waits"),
    }
    assert_eq!(b.pop().unwrap().timestamp_millis(), 4);
    assert!(b.pop().is_none());
    assert!(b.try_pop().is_none());
    assert!(matches!(b.pop_timeout(false), TimedPop::Wait));
    assert!(matches!(b.pop_timeout(true), TimedPop::TimedOut));
    assert_eq!(b.totals(), (4, 4));
}

#[test]
fn full_buffer_makes_push_wait() {
    let mut b = SharedBuffer::new_with_policy(1, false);
    assert!(matches!(b.push(thermo("a", 1)), PushOutcome::Stored));
    let back = match b.push(thermo("a", 2)) {
        PushOutcome::Wait(r) => r,
        _ => panic!("the buffer is full"),
    };
    assert_eq!(back.timestamp_millis(), 2);
    assert_eq!(b.full_waits_total(), 1);
    assert_eq!(b.len(), 1);
    b.try_pop();
    assert!(matches!(b.push(back), PushOutcome::Stored));
    assert_eq!(b.totals(), (2, 1));
    assert_eq!(b.capacity(), 1);
}

#[test]
fn full_buffer_can_fail() {
    let mut b = SharedBuffer::new_with_policy(1, true);
    assert!(matches!(b.push(thermo("a", 1)), PushOutcome::Stored));
    match b.push(thermo("a", 2)) {
        PushOutcome::Overflow { len, capacity } => assert_eq!(
            overflow_message(len, capacity),
            "SharedBuffer overflow detected: len=1 capacity=1. Set a larger capacity, reduce producer rate, or disable fail-fast mode."
        ),
        _ => panic!("the buffer fails when full"),
    }
    assert_eq!(b.full_waits_total(), 0);
}

#[test]
fn buffer_without_capacity_is_always_full() {
    let mut b = SharedBuffer::new_with_policy(0, false);
    assert!(matches!(b.push(thermo("a", 1)), PushOutcome::Wait(_)));
    assert_eq!(b.len(), 0);
}

#[test]
fn rates_count_from_last_full_second() {
    let mut m = SensorBufferManager::new(100, 10_000);
    for ts in 0..50 {
        m.push(thermo("a", ts));
    }
    for _ in 0..20 {
        m.pop();
    }
    let early = m.utilization_stats(10_999);
    assert_eq!((early.pushed_per_sec, early.popped_per_sec), (0, 0));
    let s = m.utilization_stats(12_000);
    assert_eq!((s.pushed_per_sec, s.popped_per_sec), (25, 10));
    assert_eq!((s.len, s.capacity, s.pushed_total, s.popped_total), (30, 100, 50, 20));
    for _ in 0..3 {
        m.try_pop();
    }
    let t = m.utilization_stats(13_500);
    assert_eq!((t.pushed_per_sec, t.popped_per_sec), (0, 2));
    let telemetry = t.to_telemetry();
    assert_eq!(telemetry.buffer_len, 27);
    assert_eq!(telemetry.popped_total, 23);
}

#[test]
fn peaks_never_fall() {
    let mut m = SensorBufferManager::new_with_policy(10, false, 0);
    let id = "thermo-1".to_string();
    m.register_sensor(&id);
    m.observe_available(&id, 5);
    m.observe_available(&id, 9);
    m.observe_available(&id, 2);
    m.register_sensor(&id);
    m.observe_available(&"accel-1".to_string(), 8);
    let s = m.sensor_internal_buffers_snapshot(10, 8);
    let rows: Vec<(&str, usize, usize, bool, bool)> = s
        .sensors
        .iter()
        .map(|r| (r.sensor_id.as_str(), r.current_len, r.peak_len, r.near_full, r.full))
        .collect();
    assert_eq!(rows, vec![("accel-1", 8, 8, true, false), ("thermo-1", 2, 9, false, false)]);
    assert!(s.any_near_full);
    assert!(!s.any_full);
    assert_eq!(s.warnings, vec!["Sensor accel-1 internal buffer is near full (8/10)".to_string()]);
}

#[test]
fn full_queue_is_reported_as_full() {
    let mut m = SensorBufferManager::new(10, 0);
    m.observe_available(&"a".to_string(), 12);
    let s = m.sensor_internal_buffers_snapshot(10, 8);
    assert!(s.any_full && !s.any_near_full);
    assert_eq!(s.warnings, vec!["Sensor a internal buffer is FULL (12/10)".to_string()]);
    let none = m.sensor_internal_buffers_snapshot(0, 0);
    assert!(!none.any_full && !none.any_near_full);
}

#[test]
fn shutdown_ends_readers() {
    let mut m = SensorBufferManager::new(10, 0);
    let id = "a".to_string();
    assert!(m.is_running());
    assert!(m.begin_reading(&id, 4));
    m.shutdown();
    assert!(!m.is_running());
    assert!(!m.begin_reading(&id, 9));
    let s = m.sensor_internal_buffers_snapshot(10, 10);
    assert_eq!((s.sensors[0].current_len, s.sensors[0].peak_len), (4, 4));
    assert_eq!(m.len(), 0);
    assert_eq!(m.shared().capacity(), 10);
    assert!(matches!(m.pop_timeout(true), TimedPop::TimedOut));
}

#[test]
fn full_buffer_ends_readers_after_shutdown() {
    let mut m = SensorBufferManager::new(1, 0);
    assert!(matches!(m.push(thermo("a", 1)), PushOutcome::Stored));
    let back = match m.push(thermo("a", 2)) {
        PushOutcome::Wait(r) => r,
        _ => panic!("the buffer is full"),
    };
    m.shutdown();
    match m.push(back) {
        PushOutcome::Ended(r) => assert_eq!(r.timestamp_millis(), 2),
        _ => panic!("a reader does not wait once it is to end"),
    }
    assert_eq!(m.len(), 1);
    assert_eq!(m.shared().full_waits_total(), 1);
    assert_eq!(m.shared().totals(), (1, 0));
    match m.pop_timeout(true) {
        TimedPop::Popped(r) => assert_eq!(r.timestamp_millis(), 1),
        _ => panic!("a reading waits"),
    }
    assert!(matches!(m.push(thermo("a", 3)), PushOutcome::Stored));
}

#[test]
fn full_buffer_that_fails_does_so_after_shutdown_too() {
    let mut m = SensorBufferManager::new_with_policy(1, true, 0);
    assert!(matches!(m.push(thermo("a", 1)), PushOutcome::Stored));
    m.shutdown();
    assert!(matches!(
        m.push(thermo("a", 2)),
        PushOutcome::Overflow { len: 1, capacity: 1 }
    ));
}

#[test]
fn copies_of_readings_say_the_same() {
    let r = thermo("a", 12);
    let c = r.clone();
    assert_eq!((c.sensor_id(), c.timestamp_millis(), c.internal_len()), ("a", 12, 3));
    match c {
        SensorReading::Thermo(v, _, _, _) => assert_eq!(v.temperature_celsius, 1),
        _ => panic!("the copy is of the same kind"),
    }
}
