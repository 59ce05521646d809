use sensor_pipeline::gateway::{
    aggregation_workers, config_path, config_warning, configured_line, dashboard_addr,
    flag_enabled, plan_sensors, queue_lines, usage_line, ConfigFault, GatewayConfig, SensorKind,
    SensorsConfig,
};
use sensor_pipeline::models::BufferTelemetrySnapshot;
use sensor_pipeline::rates::{parse_rates, rate_for_index};
use sensor_pipeline::sensor_buffer::BufferUtilizationStats;

#[test]
fn rates_are_positive_numbers_between_white_space() {
    assert_eq!(parse_rates("50 30", 7), vec![50, 30]);
    assert_eq!(parse_rates("  50\t+30\n0 -4 x 4294967296 4294967295 ", 7), vec![50, 30, 4294967295]);
    assert_eq!(parse_rates("", 7), vec![7]);
    assert_eq!(parse_rates("a b 0", 7), vec![7]);
    assert_eq!(parse_rates("5\u{3000}6\u{a0}7", 1), vec![5, 6, 7]);
}

#[test]
fn last_rate_is_reused() {
    assert_eq!(rate_for_index(&[50, 30], 0), 50);
    assert_eq!(rate_for_index(&[50, 30], 1), 30);
    assert_eq!(rate_for_index(&[50, 30], 9), 30);
    assert_eq!(rate_for_index(&[], 0), 1);
}

#[test]
fn defaults_of_the_gateway() {
    let cfg = GatewayConfig::default();
    assert_eq!(cfg.buffer.capacity, 5000);
    assert_eq!(cfg.dashboard.addr, "0.0.0.0:5800");
    assert_eq!(cfg.sensor_internal_buffer.usable_capacity, 127);
    assert_eq!(f64::from_bits(cfg.sensor_internal_buffer.near_full_ratio), 0.85);
    let plan: Vec<(SensorKind, String, u32)> = plan_sensors(&cfg.sensors)
        .into_iter()
        .map(|p| (p.kind, p.id, p.rate_per_sec))
        .collect();
    assert_eq!(
        plan,
        vec![
            (SensorKind::Thermo, "thermo-1".to_string(), 50),
            (SensorKind::Thermo, "thermo-2".to_string(), 50),
            (SensorKind::Accel, "accel-1".to_string(), 100),
            (SensorKind::Accel, "accel-2".to_string(), 100),
            (SensorKind::Force, "force-1".to_string(), 75),
        ]
    );
}

#[test]
fn sensors_fall_back_to_usual_rates() {
    let cfg = SensorsConfig {
        thermo_count: 1,
        thermo_rates_per_sec: "none".to_string(),
        accel_count: 2,
        accel_rates_per_sec: "5".to_string(),
        force_count: 1,
        force_rates_per_sec: String::new(),
    };
    let rates: Vec<u32> = plan_sensors(&cfg).iter().map(|p| p.rate_per_sec).collect();
    assert_eq!(rates, vec![50, 5, 5, 75]);
    assert_eq!(
        configured_line(&cfg, 4, 3),
        "Configured sensors: thermo=1, accel=2, force=1 (total=4), aggregation_workers=3"
    );
}

#[test]
fn flags_take_four_values() {
    for on in ["1", "true", "TRUE", "True"] {
        assert!(flag_enabled(Some(on.to_string())));
    }
    for off in ["", "0", "tRUE", "yes", "1 "] {
        assert!(!flag_enabled(Some(off.to_string())));
    }
    assert!(!flag_enabled(None));
}

#[test]
fn addresses_and_paths_have_fallbacks() {
    let env = || Some("1.2.3.4:5".to_string());
    assert_eq!(dashboard_addr(&"127.0.0.1:9".to_string(), env()), "127.0.0.1:9");
    assert_eq!(dashboard_addr(&" \t".to_string(), env()), "1.2.3.4:5");
    assert_eq!(dashboard_addr(&String::new(), None), "0.0.0.0:5800");
    assert_eq!(config_path(None), "./config.toml");
    assert_eq!(config_path(Some("x".to_string())), "x");
    assert_eq!(
        config_warning(ConfigFault::Unreadable, "p", "gone"),
        "Warning: failed to read config file p: gone. Using defaults."
    );
    assert_eq!(
        config_warning(ConfigFault::Invalid, "p", "bad"),
        "Warning: failed to parse config file p: bad. Using defaults."
    );
}

#[test]
fn workers_are_bounded_by_load_and_processors() {
    assert_eq!(aggregation_workers(0, Some(8)), 1);
    assert_eq!(aggregation_workers(5, Some(8)), 5);
    assert_eq!(aggregation_workers(50, Some(8)), 8);
    assert_eq!(aggregation_workers(50, None), 4);
    assert_eq!(aggregation_workers(50, Some(0)), 1);
}

fn snapshot(any_near_full: bool, any_full: bool) -> BufferTelemetrySnapshot {
    BufferTelemetrySnapshot {
        sensors: Vec::new(),
        any_near_full,
        any_full,
        warnings: vec!["one".to_string(), "two".to_string()],
    }
}

#[test]
fn queue_lines_name_the_worst() {
    assert!(queue_lines(&snapshot(false, false)).is_empty());
    assert_eq!(
        queue_lines(&snapshot(true, true)),
        vec!["WARNING: at least one sensor internal buffer is FULL!", "  - one", "  - two"]
    );
    assert_eq!(
        queue_lines(&snapshot(true, false))[0],
        "WARNING: at least one sensor internal buffer is near full."
    );
}

#[test]
fn usage_lines() {
    let s = BufferUtilizationStats {
        len: 12,
        capacity: 5000,
        pushed_total: 9,
        popped_total: 8,
        pushed_per_sec: 7,
        popped_per_sec: 6,
        full_waits_total: 0,
    };
    assert_eq!(usage_line(&s, "0.2", false), "Buffer usage: 12/5000 (0.2%)");
    assert_eq!(
        usage_line(&s, "0.2", true),
        "Buffer: len=12/5000 (0.2%), pushed+7 /s, popped+6 /s"
    );
}
