use sensor_pipeline::benchmark::collector::{
    csv_header, csv_row, load_url, measured_rows, parse_proc_jiffies, parse_total_jiffies,
    proc_stat_is_regular, sample_row, sampling_result, stat_path, CpuSampler, HttpLoadMetrics,
    Phase, Report, SampleRow, SamplingConfig,
};
use sensor_pipeline::benchmark::report::{
    build_checks, build_summary, latencies_fit, percentile_u64, write_markdown_digest,
    DigestTexts, LimitCheck, LimitChecks, SummaryRanks,
};
use sensor_pipeline::benchmark::{
    default_buffer_capacity, default_cooldown_secs, default_http_concurrency,
    default_http_endpoint, default_http_timeout_ms, default_measure_secs, default_warmup_secs,
    plan_scenario, ready_step, render_gateway_config, run_dir_name, BenchFailure, BenchProgress,
    BenchStep, GlobalConfig, HttpLoadConfig, ReadyStep, ScenarioConfig, SensorScenarioConfig,
    Thresholds,
};

fn scenario(http_load: Option<HttpLoadConfig>) -> ScenarioConfig {
    ScenarioConfig {
        id: "s1".to_string(),
        description: "first".to_string(),
        warmup_secs: 20,
        measure_secs: 120,
        cooldown_secs: 10,
        buffer_capacity: 5000,
        sensors: SensorScenarioConfig {
            thermo_count: 2,
            thermo_rates_per_sec: "50 30".to_string(),
            accel_count: 0,
            accel_rates_per_sec: String::new(),
            force_count: 10,
            force_rates_per_sec: "75".to_string(),
        },
        http_load,
        thresholds: Thresholds::default(),
    }
}

fn load(enabled: bool) -> Option<HttpLoadConfig> {
    Some(HttpLoadConfig {
        enabled,
        endpoint: "/api/latest".to_string(),
        concurrency: 4,
        timeout_ms: 900,
    })
}

fn sampling(warmup_secs: u64, measure_secs: u64, cooldown_secs: u64, poll_interval_ms: u64) -> SamplingConfig {
    SamplingConfig {
        scenario_id: "s1".to_string(),
        base_url: "http://h:1".to_string(),
        warmup_secs,
        measure_secs,
        cooldown_secs,
        poll_interval_ms,
    }
}

#[test]
fn defaults_of_a_benchmark() {
    let g = GlobalConfig::default();
    assert_eq!(g.gateway_bin, "target/release/gateway");
    assert_eq!(g.dashboard_host, "127.0.0.1");
    assert_eq!(g.base_port, 5900);
    assert_eq!(g.results_dir, "bench_results");
    assert_eq!(g.poll_interval_ms, 1000);
    assert_eq!((default_warmup_secs(), default_measure_secs(), default_cooldown_secs()), (20, 120, 10));
    assert_eq!(default_buffer_capacity(), 5000);
    assert_eq!(default_http_endpoint(), "/api/latest");
    assert_eq!((default_http_concurrency(), default_http_timeout_ms()), (1, 1000));
    let t = Thresholds::default();
    assert_eq!(f64::from_bits(t.max_http_error_rate), 0.01);
    assert_eq!(f64::from_bits(t.max_api_p95_ms), 200.0);
    assert_eq!(f64::from_bits(t.max_api_p99_ms), 500.0);
    assert_eq!(f64::from_bits(t.max_cpu_avg_pct), 75.0);
    assert_eq!(f64::from_bits(t.max_cpu_peak_pct), 90.0);
    assert_eq!(f64::from_bits(t.max_near_full_ratio), 0.01);
}

#[test]
fn gateway_config_is_written_in_full() {
    assert_eq!(
        render_gateway_config(&scenario(None), "127.0.0.1:5901"),
        "[sensors]\n\
thermo_count = 2\n\
thermo_rates_per_sec = \"50 30\"\n\
accel_count = 0\n\
accel_rates_per_sec = \"\"\n\
force_count = 10\n\
force_rates_per_sec = \"75\"\n\n\
[buffer]\n\
capacity = 5000\n\n\
[dashboard]\n\
addr = \"127.0.0.1:5901\"\n"
    );
    assert_eq!(run_dir_name(1700), "run_1700");
}

#[test]
fn scenarios_get_a_port_each() {
    let g = GlobalConfig::default();
    let p = plan_scenario(&g, 3, &scenario(load(true)));
    assert_eq!(p.port, 5903);
    assert_eq!(p.dashboard_addr, "127.0.0.1:5903");
    assert_eq!(p.base_url, "http://127.0.0.1:5903");
    assert!(p.gateway_config.ends_with("addr = \"127.0.0.1:5903\"\n"));
    let l = p.http_load.expect("load is on");
    assert_eq!((l.base_url.as_str(), l.endpoint.as_str()), ("http://127.0.0.1:5903", "/api/latest"));
    assert_eq!((l.concurrency, l.timeout_ms), (4, 900));
    assert_eq!(p.sampling.scenario_id, "s1");
    assert_eq!(p.sampling.poll_interval_ms, 1000);
    assert_eq!(p.sampling.measure_secs, 120);
    assert!(plan_scenario(&g, 0, &scenario(load(false))).http_load.is_none());
    assert!(plan_scenario(&g, 0, &scenario(None)).http_load.is_none());
    assert_eq!(plan_scenario(&g, 65_000, &scenario(None)).port, 65_535);
    assert_eq!(plan_scenario(&g, 65_536, &scenario(None)).port, 5900);
}

#[test]
fn run_goes_through_all_steps() {
    let mut p = BenchProgress::new();
    let mut steps = Vec::new();
    while p.step != BenchStep::Finished {
        steps.push((p.step, p.idx));
        p.advance(2, p.idx == 1);
    }
    assert_eq!(
        steps,
        vec![
            (BenchStep::CreateRunDir, 0),
            (BenchStep::CreateScenarioDir, 0),
            (BenchStep::WriteGatewayConfig, 0),
            (BenchStep::CreateLogs, 0),
            (BenchStep::SpawnGateway, 0),
            (BenchStep::WaitReady, 0),
            (BenchStep::Sample, 0),
            (BenchStep::StopGateway, 0),
            (BenchStep::Summarize, 0),
            (BenchStep::WriteSummary, 0),
            (BenchStep::WriteChecks, 0),
            (BenchStep::WriteDigest, 0),
            (BenchStep::CreateScenarioDir, 1),
            (BenchStep::WriteGatewayConfig, 1),
            (BenchStep::CreateLogs, 1),
            (BenchStep::SpawnGateway, 1),
            (BenchStep::WaitReady, 1),
            (BenchStep::StartHttpLoad, 1),
            (BenchStep::Sample, 1),
            (BenchStep::WriteHttpMetrics, 1),
            (BenchStep::StopGateway, 1),
            (BenchStep::Summarize, 1),
            (BenchStep::WriteSummary, 1),
            (BenchStep::WriteChecks, 1),
            (BenchStep::WriteDigest, 1),
        ]
    );
    let mut empty = BenchProgress::new();
    empty.advance(0, false);
    assert_eq!(empty.step, BenchStep::Finished);
}

#[test]
fn failures_have_their_messages() {
    let cases = vec![
        (BenchFailure::ReadConfig, "failed to read benchmark config p: e"),
        (BenchFailure::ParseConfig, "failed to parse benchmark config: e"),
        (BenchFailure::CreateRunDir, "failed to create run output dir p: e"),
        (BenchFailure::CreateScenarioDir, "failed to create scenario dir p: e"),
        (BenchFailure::WriteGatewayConfig, "failed to write scenario gateway config: e"),
        (BenchFailure::CreateStdoutLog, "failed to create stdout log: e"),
        (BenchFailure::CreateStderrLog, "failed to create stderr log: e"),
        (BenchFailure::SpawnGateway, "failed to spawn gateway process p: e"),
        (BenchFailure::BuildClient, "failed to build http client: e"),
        (BenchFailure::SerializeHttpMetrics, "serialize http metrics: e"),
        (BenchFailure::WriteHttpMetrics, "write http metrics: e"),
        (BenchFailure::SerializeSummary, "serialize summary: e"),
        (BenchFailure::WriteSummary, "write summary: e"),
        (BenchFailure::SerializeChecks, "serialize checks: e"),
        (BenchFailure::WriteChecks, "write checks: e"),
        (BenchFailure::CreateSamples, "failed to create p: e"),
        (BenchFailure::WriteSamplesHeader, "failed to write csv header: e"),
        (BenchFailure::BuildSamplerClient, "failed to build sampler client: e"),
        (BenchFailure::SampleBuffer, "sampling /api/buffer failed: e"),
        (BenchFailure::ParseBuffer, "parse /api/buffer failed: e"),
        (BenchFailure::SampleStats, "sampling /api/stats failed: e"),
        (BenchFailure::ParseStats, "parse /api/stats failed: e"),
        (BenchFailure::AppendSample, "failed to append sample row: e"),
        (BenchFailure::ReadHttpMetrics, "read http metrics p: e"),
        (BenchFailure::ParseHttpMetrics, "parse http metrics p: e"),
        (BenchFailure::WriteDigest, "write p: e"),
    ];
    for (failure, text) in cases {
        assert_eq!(failure.message("p", "e"), text);
    }
}

#[test]
fn wait_for_dashboard_gives_up_in_time() {
    assert!(matches!(ready_step(None, false, 30, "u"), ReadyStep::Ask));
    assert!(matches!(ready_step(Some(true), true, 30, "u"), ReadyStep::Ready));
    assert!(matches!(ready_step(Some(false), true, 30, "u"), ReadyStep::Sleep));
    match ready_step(None, true, 30, "http://h:1") {
        ReadyStep::GiveUp(m) => assert_eq!(m, "dashboard not ready in 30s: http://h:1"),
        _ => panic!("the time is up"),
    }
}

#[test]
fn phases_by_elapsed_time() {
    let c = sampling(2, 3, 4, 100);
    let names: Vec<&str> = (0..9).map(|s| c.phase(s).name()).collect();
    assert_eq!(
        names,
        vec![
            "warmup", "warmup", "measure", "measure", "measure", "cooldown", "cooldown",
            "cooldown", "cooldown"
        ]
    );
    assert!(c.goes_on(8));
    assert!(!c.goes_on(9));
    assert_eq!(c.phase(9), Phase::Cooldown);
    assert_eq!(c.interval_ms(), 200);
    assert_eq!(sampling(0, 0, 0, 1000).interval_ms(), 1000);
    assert!(c.durations_fit());
    assert!(!sampling(u64::MAX, 1, 0, 0).durations_fit());
    assert!(!sampling(u64::MAX - 1, 1, 1, 0).durations_fit());
}

fn report(total_frames: usize, latest_window_end: Option<u64>, any_full: bool) -> Report {
    Report {
        any_full,
        any_near_full: !any_full,
        peak_sensor_utilization: 0.5f64.to_bits(),
        total_frames,
        latest_window_end,
        cpu_pct: 12.5f64.to_bits(),
    }
}

#[test]
fn samples_become_csv_lines() {
    let r = sample_row(Phase::Measure, 5000, report(7, Some(4200), true));
    assert_eq!(r.pipeline_latency_ms, 800);
    assert_eq!(
        csv_row(&r, "0.500000", "12.50"),
        "5000,measure,true,false,0.500000,7,4200,800,12.50"
    );
    let early = sample_row(Phase::Warmup, 100, report(0, Some(200), false));
    assert_eq!(early.pipeline_latency_ms, 0);
    let none = sample_row(Phase::Cooldown, 100, report(0, None, false));
    assert_eq!((none.latest_window_end, none.pipeline_latency_ms), (0, 100));
    assert_eq!(csv_header().split(',').count(), 9);
    assert!(csv_header().starts_with("ts_ms,phase,any_full,any_near_full,"));
}

fn rows() -> Vec<SampleRow> {
    vec![
        sample_row(Phase::Warmup, 1000, report(1, Some(0), true)),
        sample_row(Phase::Measure, 2000, report(10, Some(1500), true)),
        sample_row(Phase::Measure, 3000, report(12, Some(2900), false)),
        sample_row(Phase::Measure, 4000, report(15, Some(3700), false)),
        sample_row(Phase::Cooldown, 5000, report(99, Some(0), true)),
    ]
}

#[test]
fn measured_samples_are_summed_up() {
    let result = sampling_result("s1".to_string(), rows());
    assert_eq!((result.total_samples, result.measured_samples), (5, 3));
    assert!(latencies_fit(&result));
    let http = HttpLoadMetrics { success: 3, fail: 1, latencies_us: vec![900, 100, 500] };
    let ranks = SummaryRanks { pipeline_p95: 2, http_p50: 1, http_p95: 2, http_p99: 9 };
    let s = build_summary(&scenario(None), &result, &http, ranks);
    assert_eq!(s.scenario_id, "s1");
    assert_eq!((s.measured_samples, s.overflow_events, s.near_full_samples), (3, 1, 2));
    assert_eq!(s.frame_rate, Some((5, 2000)));
    assert_eq!((s.pipeline_latency_sum_ms, s.pipeline_latency_p95_ms), (900, Some(500)));
    assert_eq!((s.http_success, s.http_fail, s.http_total, s.http_secs), (3, 1, 4, 120));
    assert_eq!(
        (s.http_latency_p50_us, s.http_latency_p95_us, s.http_latency_p99_us),
        (Some(500), Some(900), Some(900))
    );
}

#[test]
fn measured_rows_are_found_in_order() {
    assert_eq!(measured_rows(&sampling_result("s1".to_string(), rows())), vec![1, 2, 3]);
    let mut mixed = rows();
    mixed.swap(0, 2);
    assert_eq!(measured_rows(&sampling_result("s1".to_string(), mixed)), vec![0, 1, 3]);
    let none = sampling_result("s1".to_string(), Vec::new());
    assert_eq!(measured_rows(&none), Vec::<usize>::new());
}

#[test]
fn failed_step_ends_the_run_with_its_error() {
    let fail_at = (BenchStep::WaitReady, 1);
    let mut p = BenchProgress::new();
    let mut done = 0;
    let error = loop {
        let outcome = if (p.step, p.idx) == fail_at { Err("no answer".to_string()) } else { Ok(()) };
        match p.after_step(outcome, 3, false) {
            Ok(next) => p = next,
            Err(e) => break e,
        }
        done += 1;
    };
    assert_eq!(error, "no answer");
    assert_eq!((p.step, p.idx, done), (BenchStep::WaitReady, 1, 16));
    let mut q = BenchProgress::new();
    q.advance(3, false);
    assert_eq!(BenchProgress::new().after_step(Ok(()), 3, false), Ok(q));
}

#[test]
fn copies_of_scenarios_say_the_same() {
    let s = scenario(load(true)).clone();
    assert_eq!((s.id.as_str(), s.measure_secs, s.sensors.force_count), ("s1", 120, 10));
    assert_eq!(s.http_load.map(|l| l.endpoint), Some("/api/latest".to_string()));
    let r = sampling_result("s1".to_string(), rows()).clone();
    assert_eq!((r.samples.len(), r.samples[1].total_frames), (5, 10));
}

#[test]
fn nothing_measured_gives_no_rates() {
    let result = sampling_result("s1".to_string(), Vec::new());
    let ranks = SummaryRanks { pipeline_p95: 0, http_p50: 0, http_p95: 0, http_p99: 0 };
    let s = build_summary(&scenario(None), &result, &HttpLoadMetrics::default(), ranks);
    assert_eq!(s.frame_rate, None);
    assert_eq!(s.pipeline_latency_p95_ms, None);
    assert_eq!(s.http_latency_p50_us, None);
    let one = sampling_result("s1".to_string(), vec![sample_row(Phase::Measure, 5, report(3, None, false))]);
    let t = build_summary(&scenario(None), &one, &HttpLoadMetrics::default(), ranks);
    assert_eq!(t.frame_rate, Some((0, 1)));
}

#[test]
fn latencies_past_the_range_do_not_fit() {
    let mut v = rows();
    v[1].pipeline_latency_ms = u64::MAX;
    let result = sampling_result("s1".to_string(), v);
    assert!(!latencies_fit(&result));
}

#[test]
fn percentiles_are_read_by_rank() {
    let v = vec![5, 1, 9, 5, 3];
    let got: Vec<Option<u64>> = (0..7).map(|r| percentile_u64(&v, r)).collect();
    assert_eq!(got, vec![Some(1), Some(3), Some(5), Some(5), Some(9), Some(9), Some(9)]);
    assert_eq!(percentile_u64(&Vec::new(), 0), None);
}

#[test]
fn requests_count_once() {
    let mut m = HttpLoadMetrics::default();
    m.record(true, 10);
    m.record(false, 20);
    m.record(true, 30);
    assert_eq!((m.success, m.fail), (2, 1));
    assert_eq!(m.latencies_us, vec![10, 30]);
    assert_eq!(load_url("http://h:1", "/api/latest"), "http://h:1/api/latest");
}

#[test]
fn cpu_time_counts_from_last_sample() {
    let mut c = CpuSampler::new(7, 100, 1000);
    assert_eq!(c.sample(150, 1200), Some((50, 200)));
    assert_eq!(c.sample(160, 1200), None);
    assert_eq!(c.sample(150, 1300), Some((0, 100)));
    assert_eq!(c.sample(150, 5), None);
    assert_eq!(stat_path(42), "/proc/42/stat");
}

#[test]
fn process_times_are_fields_after_the_name() {
    let line = "42 (a) b) S 1 2 3 4 5 6 7 8 9 10 300 45 13 14 15";
    assert!(proc_stat_is_regular(line));
    assert_eq!(parse_proc_jiffies(line, "p"), Ok(345));
    assert_eq!(parse_proc_jiffies("42 a b", "p"), Err("bad stat format: p".to_string()));
    assert_eq!(parse_proc_jiffies("42 (a) 1 2", "p"), Err("stat fields too short: p".to_string()));
    let bad_user = "42 (a) S 1 2 3 4 5 6 7 8 9 10 x 45 13 14 15";
    assert_eq!(
        parse_proc_jiffies(bad_user, "p"),
        Err("parse utime in p: invalid digit found in string".to_string())
    );
    let bad_system = "42 (a) S 1 2 3 4 5 6 7 8 9 10 1 99999999999999999999 13 14 15";
    assert_eq!(
        parse_proc_jiffies(bad_system, "p"),
        Err("parse stime in p: number too large to fit in target type".to_string())
    );
}

#[test]
fn irregular_process_times_are_told_apart() {
    assert!(!proc_stat_is_regular("42 (a)"));
    assert!(!proc_stat_is_regular("42 (a)\u{e9} 1"));
    assert!(!proc_stat_is_regular(
        "42 (a) S 1 2 3 4 5 6 7 8 9 10 18446744073709551615 1 13 14 15"
    ));
    assert!(proc_stat_is_regular("no bracket"));
}

#[test]
fn machine_time_is_the_sum_of_the_first_line() {
    assert_eq!(parse_total_jiffies("cpu  1 2 3\ncpu0 9 9"), Ok(6));
    assert_eq!(parse_total_jiffies("cpu"), Ok(0));
    assert_eq!(parse_total_jiffies("cpu 18446744073709551615 5"), Ok(u64::MAX));
    assert_eq!(parse_total_jiffies(""), Err("missing cpu line in /proc/stat".to_string()));
    assert_eq!(parse_total_jiffies("cpu0 1"), Err("invalid /proc/stat cpu line".to_string()));
    assert_eq!(parse_total_jiffies("\ncpu 1"), Err("invalid /proc/stat cpu line".to_string()));
    assert_eq!(
        parse_total_jiffies("cpu 1 + 2"),
        Err("parse /proc/stat: invalid digit found in string".to_string())
    );
}

fn limit(within: bool, actual: &str, limit: &str) -> LimitCheck {
    LimitCheck { within, actual: actual.to_string(), limit: limit.to_string() }
}

fn limits() -> LimitChecks {
    LimitChecks {
        near_full_ratio: limit(false, "0.6667", "0.0100"),
        http_error_rate: limit(true, "0.0000", "0.0100"),
        http_latency_p95_ms: limit(true, "1.00", "200.00"),
        http_latency_p99_ms: limit(true, "2.00", "500.00"),
        cpu_avg_pct: limit(true, "3.00", "75.00"),
        cpu_peak_pct: limit(true, "4.00", "90.00"),
    }
}

#[test]
fn checks_and_digest_of_a_scenario() {
    let result = sampling_result("s1".to_string(), rows());
    let ranks = SummaryRanks { pipeline_p95: 2, http_p50: 0, http_p95: 0, http_p99: 0 };
    let summary = build_summary(&scenario(None), &result, &HttpLoadMetrics::default(), ranks);
    let checks = build_checks(&summary, limits());
    let names: Vec<(&str, bool)> = checks.iter().map(|c| (c.name.as_str(), c.passed)).collect();
    assert_eq!(
        names,
        vec![
            ("zero_data_loss_overflow", false),
            ("near_full_ratio", false),
            ("http_error_rate", true),
            ("http_latency_p95_ms", true),
            ("http_latency_p99_ms", true),
            ("cpu_avg_pct", true),
            ("cpu_peak_pct", true),
        ]
    );
    assert_eq!((checks[0].actual.as_str(), checks[0].target.as_str()), ("1", "0"));
    assert_eq!((checks[1].actual.as_str(), checks[1].target.as_str()), ("0.6667", "<= 0.0100"));
    let t = DigestTexts {
        near_full_ratio: "0.6667".to_string(),
        frame_tps: "2.50".to_string(),
        pipeline_latency_avg_ms: "300.00".to_string(),
        pipeline_latency_p95_ms: "500.00".to_string(),
        http_latency_p50_ms: "0.10".to_string(),
        http_latency_p95_ms: "0.20".to_string(),
        http_latency_p99_ms: "0.30".to_string(),
        cpu_avg_pct: "12.50".to_string(),
        cpu_peak_pct: "13.50".to_string(),
    };
    let md = write_markdown_digest("s1", &checks, &summary, &t);
    assert_eq!(
        md,
        "# Benchmark Digest: s1\n\n\
- Checks passed: 5/7\n\
- Overflow events: 1\n\
- Near-full ratio: 0.6667\n\
- Frame throughput (tps): 2.50\n\
- Pipeline latency avg/p95 (ms): 300.00/500.00\n\
- HTTP success/fail: 0/0\n\
- HTTP latency p50/p95/p99 (ms): 0.10/0.20/0.30\n\
- CPU avg/peak (%): 12.50/13.50\n\n\
## Check Details\n\
- zero_data_loss_overflow: FAIL (actual 1, target 0)\n\
- near_full_ratio: FAIL (actual 0.6667, target <= 0.0100)\n\
- http_error_rate: PASS (actual 0.0000, target <= 0.0100)\n\
- http_latency_p95_ms: PASS (actual 1.00, target <= 200.00)\n\
- http_latency_p99_ms: PASS (actual 2.00, target <= 500.00)\n\
- cpu_avg_pct: PASS (actual 3.00, target <= 75.00)\n\
- cpu_peak_pct: PASS (actual 4.00, target <= 90.00)\n"
    );
}
