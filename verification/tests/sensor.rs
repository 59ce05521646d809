use sensor_pipeline::models::ThermoReading;
use sensor_pipeline::ring::QueueWriter;
use sensor_pipeline::sensor::{poll_for_data, sample_period_ms, Thermometer, MAX_QUEUE_SIZE};

struct SensorGuard {
    sensor: Thermometer,
    writer: Option<QueueWriter<ThermoReading>>,
    made: u32,
}

impl SensorGuard {
    fn new(id: &str, rate_per_sec: u32) -> Self {
        SensorGuard {
            sensor: Thermometer::new(id.to_string(), rate_per_sec),
            writer: None,
            made: 0,
        }
    }

    fn start(&mut self) {
        if let Some(writer) = self.sensor.start() {
            self.writer = Some(writer);
        }
    }

    /// Asks for the stop. The producer, which still has the writing end, goes on with its loop for
    /// a while, and then gives the writing end back.
    fn stop(&mut self) {
        if self.sensor.stop() {
            let waiting = self.sensor.available();
            self.run_for(50);
            assert_eq!(self.sensor.available(), waiting);
            let writer = self.writer.take().expect("a producer has the writing end");
            self.sensor.producer_ended(writer);
        }
    }

    /// What the producer does in `ms` milliseconds.
    fn run_for(&mut self, ms: u64) {
        let mut left = ms;
        while let Some(writer) = &self.writer {
            if !self.sensor.is_running() {
                return;
            }
            self.made += 1;
            let value = (20.0 + self.made as f32 / 100.0).to_bits();
            self.sensor.produce(writer, ThermoReading { temperature_celsius: value });
            let period = sample_period_ms(self.sensor.rate_per_sec());
            if left < period {
                return;
            }
            left -= period;
        }
    }

    fn wait_for_reading(&mut self, timeout_ms: u64) -> Option<ThermoReading> {
        let mut left = timeout_ms;
        loop {
            if let Some(reading) = self.sensor.read() {
                return Some(reading);
            }
            if left < 5 {
                return None;
            }
            left -= 5;
            self.run_for(5);
        }
    }
}

#[test]
fn start_produces_readings() {
    let mut guard = SensorGuard::new("t-1", 200);
    guard.start();

    let reading = guard.wait_for_reading(500);
    assert!(reading.is_some());
}

#[test]
fn stop_halts_and_restart_resumes() {
    let mut guard = SensorGuard::new("t-2", 200);
    guard.start();

    assert!(guard.wait_for_reading(500).is_some());

    guard.stop();

    while guard.sensor.read().is_some() {}
    guard.run_for(50);
    assert!(guard.sensor.read().is_none());

    guard.start();
    assert!(guard.wait_for_reading(500).is_some());
}

#[test]
fn nothing_is_queued_between_stop_and_start() {
    let mut guard = SensorGuard::new("t", 200);
    guard.start();
    guard.run_for(10);
    assert_eq!(guard.sensor.available(), 3);

    assert!(guard.sensor.stop());
    assert!(guard.writer.is_some());
    guard.run_for(100);
    assert_eq!((guard.made, guard.sensor.available()), (3, 3));
    assert!(guard.sensor.read().is_some());
    guard.run_for(100);
    assert_eq!((guard.made, guard.sensor.available()), (3, 2));
    assert!(guard.sensor.read().is_some());
    assert!(guard.sensor.read().is_some());
    assert!(guard.sensor.read().is_none());
    guard.run_for(100);
    assert!(guard.sensor.read().is_none());

    guard.stop();
    assert!(guard.writer.is_none());
    assert!(!guard.sensor.stop());
    assert!(guard.sensor.read().is_none());

    guard.start();
    guard.run_for(10);
    assert_eq!((guard.made, guard.sensor.available()), (6, 3));
    assert_eq!(
        guard.sensor.read().map(|r| r.temperature_celsius),
        Some(20.04f32.to_bits())
    );
}

#[test]
fn available_matches_reader_len() {
    let mut guard = SensorGuard::new("t-3", 200);
    guard.start();

    let _ = guard.wait_for_reading(500);
    let len = guard.sensor.available();
    let mut read = 0;
    while guard.sensor.read().is_some() {
        read += 1;
    }
    assert_eq!(len, read);
}

#[test]
fn second_start_changes_nothing() {
    let mut sensor = Thermometer::new("t".to_string(), 10);
    assert!(sensor.start_thread().is_some());
    assert!(sensor.start_thread().is_none());
    assert!(sensor.is_running());
    assert_eq!(sensor.id(), "t");
}

#[test]
fn full_queue_keeps_newest_readings() {
    let mut sensor = Thermometer::new("t".to_string(), 10);
    let writer = sensor.start().unwrap();
    for i in 0..200u32 {
        sensor.produce(&writer, ThermoReading { temperature_celsius: i });
    }
    assert_eq!(sensor.available(), MAX_QUEUE_SIZE - 1);
    assert_eq!(sensor.read().unwrap().temperature_celsius, 73);
    assert_eq!(sensor.notify_seq(), 200);
}

#[test]
fn wait_for_data_ends_on_data_announcement_or_time() {
    let mut sensor = Thermometer::new("t".to_string(), 10);
    let last = sensor.notify_seq();
    assert_eq!(sensor.wait_for_data(last, false), None);
    assert_eq!(sensor.wait_for_data(last, true), Some(false));
    let writer = sensor.start().unwrap();
    sensor.produce(&writer, ThermoReading { temperature_celsius: 1 });
    assert_eq!(sensor.wait_for_data(last, false), Some(true));
    sensor.read();
    assert_eq!(sensor.wait_for_data(last, false), Some(false));
}

#[test]
fn sample_period_divides_a_second() {
    assert_eq!(sample_period_ms(200), 5);
    assert_eq!(sample_period_ms(75), 13);
    assert_eq!(sample_period_ms(2000), 0);
}

#[test]
fn polling_ends_on_data_or_time() {
    assert_eq!(poll_for_data(0, false), None);
    assert_eq!(poll_for_data(0, true), Some(false));
    assert_eq!(poll_for_data(3, true), Some(true));
    assert_eq!(poll_for_data(3, false), Some(true));
}
