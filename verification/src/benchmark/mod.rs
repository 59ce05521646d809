//! Benchmark runs: a list of scenarios, each with its own gateway process.
use vstd::prelude::*;
use vstd::string::StringExecFns;
use crate::text::{decimal, push_decimal};
use self::collector::SamplingConfig;

pub mod collector;
pub mod report;

verus! {

/// The path of the gateway program, where none is configured.
pub fn default_gateway_bin() -> (r: String)
    ensures
        r@ == "target/release/gateway"@,
{
    "target/release/gateway".to_string()
}

/// The host of the dashboard, where none is configured.
pub fn default_dashboard_host() -> (r: String)
    ensures
        r@ == "127.0.0.1"@,
{
    "127.0.0.1".to_string()
}

/// The port of the first scenario's dashboard, where none is configured.
pub fn default_base_port() -> (r: u16)
    ensures
        r == 5900,
{
    5900
}

/// The directory for results, where none is configured.
pub fn default_results_dir() -> (r: String)
    ensures
        r@ == "bench_results"@,
{
    "bench_results".to_string()
}

/// The time between two samples in milliseconds, where none is configured.
pub fn default_poll_interval_ms() -> (r: u64)
    ensures
        r == 1000,
{
    1000
}

/// How many seconds a scenario warms up, where it does not say.
pub fn default_warmup_secs() -> (r: u64)
    ensures
        r == 20,
{
    20
}

/// How many seconds of a scenario are measured, where it does not say.
pub fn default_measure_secs() -> (r: u64)
    ensures
        r == 120,
{
    120
}

/// How many seconds a scenario cools down, where it does not say.
pub fn default_cooldown_secs() -> (r: u64)
    ensures
        r == 10,
{
    10
}

/// The capacity of the shared buffer, where a scenario does not say.
pub fn default_buffer_capacity() -> (r: usize)
    ensures
        r == 5000,
{
    5000
}

/// The endpoint for HTTP load, where none is configured.
pub fn default_http_endpoint() -> (r: String)
    ensures
        r@ == "/api/latest"@,
{
    "/api/latest".to_string()
}

/// How many clients make HTTP load, where a scenario does not say.
pub fn default_http_concurrency() -> (r: usize)
    ensures
        r == 1,
{
    1
}

/// How many milliseconds a client waits for an answer, where a scenario does not say.
pub fn default_http_timeout_ms() -> (r: u64)
    ensures
        r == 1000,
{
    1000
}

/// What all scenarios share.
#[derive(Clone, Debug)]
pub struct GlobalConfig {
    pub gateway_bin: String,
    pub dashboard_host: String,
    pub base_port: u16,
    pub results_dir: String,
    pub poll_interval_ms: u64,
}

impl Default for GlobalConfig {
    fn default() -> (r: Self)
        ensures
            r.gateway_bin@ == "target/release/gateway"@,
            r.dashboard_host@ == "127.0.0.1"@,
            r.base_port == 5900,
            r.results_dir@ == "bench_results"@,
            r.poll_interval_ms == 1000,
    {
        GlobalConfig {
            gateway_bin: default_gateway_bin(),
            dashboard_host: default_dashboard_host(),
            base_port: default_base_port(),
            results_dir: default_results_dir(),
            poll_interval_ms: default_poll_interval_ms(),
        }
    }
}

/// The sensors of a scenario.
#[derive(Clone, Debug)]
pub struct SensorScenarioConfig {
    pub thermo_count: usize,
    pub thermo_rates_per_sec: String,
    pub accel_count: usize,
    pub accel_rates_per_sec: String,
    pub force_count: usize,
    pub force_rates_per_sec: String,
}

/// The HTTP load of a scenario.
#[derive(Clone, Debug)]
pub struct HttpLoadConfig {
    pub enabled: bool,
    pub endpoint: String,
    pub concurrency: usize,
    pub timeout_ms: u64,
}

/// The limits that a scenario has to keep: double-precision numbers, as their bit patterns.
#[derive(Clone, Copy, Debug, PartialEq, Eq, Structural)]
pub struct Thresholds {
    pub max_http_error_rate: u64,
    pub max_api_p95_ms: u64,
    pub max_api_p99_ms: u64,
    pub max_cpu_avg_pct: u64,
    pub max_cpu_peak_pct: u64,
    pub max_near_full_ratio: u64,
}

/// The limits where a scenario does not say: an error rate of 0.01, 200 and 500 milliseconds,
/// 75 and 90 percent, and a ratio of 0.01.
pub open spec fn default_thresholds() -> Thresholds {
    Thresholds {
        max_http_error_rate: 0x3f84_7ae1_47ae_147b,
        max_api_p95_ms: 0x4069_0000_0000_0000,
        max_api_p99_ms: 0x407f_4000_0000_0000,
        max_cpu_avg_pct: 0x4052_c000_0000_0000,
        max_cpu_peak_pct: 0x4056_8000_0000_0000,
        max_near_full_ratio: 0x3f84_7ae1_47ae_147b,
    }
}

impl Default for Thresholds {
    fn default() -> (r: Self)
        ensures
            r == default_thresholds(),
    {
        Thresholds {
            max_http_error_rate: 0x3f84_7ae1_47ae_147b,
            max_api_p95_ms: 0x4069_0000_0000_0000,
            max_api_p99_ms: 0x407f_4000_0000_0000,
            max_cpu_avg_pct: 0x4052_c000_0000_0000,
            max_cpu_peak_pct: 0x4056_8000_0000_0000,
            max_near_full_ratio: 0x3f84_7ae1_47ae_147b,
        }
    }
}

/// One scenario.
#[derive(Clone, Debug)]
pub struct ScenarioConfig {
    pub id: String,
    pub description: String,
    pub warmup_secs: u64,
    pub measure_secs: u64,
    pub cooldown_secs: u64,
    pub buffer_capacity: usize,
    pub sensors: SensorScenarioConfig,
    pub http_load: Option<HttpLoadConfig>,
    pub thresholds: Thresholds,
}

/// A benchmark run.
#[derive(Clone, Debug)]
pub struct BenchmarkConfig {
    pub global: GlobalConfig,
    pub scenarios: Vec<ScenarioConfig>,
}

/// The configuration file of a scenario's gateway.
pub open spec fn gateway_config_text(s: ScenarioConfig, dashboard_addr: Seq<char>) -> Seq<char> {
    "[sensors]\nthermo_count = "@ + decimal(s.sensors.thermo_count as nat)
        + "\nthermo_rates_per_sec = \""@ + s.sensors.thermo_rates_per_sec@ + "\"\naccel_count = "@
        + decimal(s.sensors.accel_count as nat) + "\naccel_rates_per_sec = \""@
        + s.sensors.accel_rates_per_sec@ + "\"\nforce_count = "@ + decimal(
        s.sensors.force_count as nat,
    ) + "\nforce_rates_per_sec = \""@ + s.sensors.force_rates_per_sec@
        + "\"\n\n[buffer]\ncapacity = "@ + decimal(s.buffer_capacity as nat)
        + "\n\n[dashboard]\naddr = \""@ + dashboard_addr + "\"\n"@
}

/// Writes the configuration file of a scenario's gateway.
pub fn render_gateway_config(s: &ScenarioConfig, dashboard_addr: &str) -> (r: String)
    ensures
        r@ == gateway_config_text(*s, dashboard_addr@),
{
    let mut r = "[sensors]\nthermo_count = ".to_string();
    push_decimal(&mut r, s.sensors.thermo_count as u64);
    r.append("\nthermo_rates_per_sec = \"");
    r.append(s.sensors.thermo_rates_per_sec.as_str());
    r.append("\"\naccel_count = ");
    push_decimal(&mut r, s.sensors.accel_count as u64);
    r.append("\naccel_rates_per_sec = \"");
    r.append(s.sensors.accel_rates_per_sec.as_str());
    r.append("\"\nforce_count = ");
    push_decimal(&mut r, s.sensors.force_count as u64);
    r.append("\nforce_rates_per_sec = \"");
    r.append(s.sensors.force_rates_per_sec.as_str());
    r.append("\"\n\n[buffer]\ncapacity = ");
    push_decimal(&mut r, s.buffer_capacity as u64);
    r.append("\n\n[dashboard]\naddr = \"");
    r.append(dashboard_addr);
    r.append("\"\n");
    r
}

/// The name of the directory of a run that starts at `run_id`.
pub fn run_dir_name(run_id: u64) -> (r: String)
    ensures
        r@ == "run_"@ + decimal(run_id as nat),
{
    let mut r = "run_".to_string();
    push_decimal(&mut r, run_id);
    r
}

/// The port of a scenario's dashboard: one port on per scenario, up to the last port there is.
/// Positions count in 16 bits.
pub open spec fn scenario_port(base_port: u16, idx: usize) -> int {
    if base_port + idx % 0x1_0000 <= u16::MAX {
        base_port + idx % 0x1_0000
    } else {
        u16::MAX as int
    }
}

/// Dashboards of different scenarios have different ports, while there are ports left.
pub proof fn lemma_ports_differ(base_port: u16, i: usize, j: usize)
    requires
        i < j,
        base_port + j <= u16::MAX,
    ensures
        scenario_port(base_port, i) != scenario_port(base_port, j),
{
}

/// The load that clients put on a dashboard.
#[derive(Debug)]
pub struct HttpLoadPlan {
    pub base_url: String,
    pub endpoint: String,
    pub concurrency: usize,
    pub timeout_ms: u64,
}

/// All that one scenario needs.
#[derive(Debug)]
pub struct ScenarioPlan {
    pub port: u16,
    pub dashboard_addr: String,
    pub base_url: String,
    pub gateway_config: String,
    pub http_load: Option<HttpLoadPlan>,
    pub sampling: SamplingConfig,
}

/// Plans the scenario at position `idx`: where its dashboard listens, how its gateway is
/// configured, what load there is, and how it is sampled.
pub fn plan_scenario(global: &GlobalConfig, idx: usize, scenario: &ScenarioConfig) -> (r:
    ScenarioPlan)
    ensures
        r.port == scenario_port(global.base_port, idx),
        r.dashboard_addr@ == global.dashboard_host@ + ":"@ + decimal(r.port as nat),
        r.base_url@ == "http://"@ + r.dashboard_addr@,
        r.gateway_config@ == gateway_config_text(*scenario, r.dashboard_addr@),
        r.http_load is Some <==> scenario.http_load is Some && scenario.http_load->0.enabled,
        r.http_load matches Some(load) ==> load.base_url@ == r.base_url@ && load.endpoint@
            == scenario.http_load->0.endpoint@ && load.concurrency
            == scenario.http_load->0.concurrency && load.timeout_ms
            == scenario.http_load->0.timeout_ms,
        r.sampling.scenario_id@ == scenario.id@,
        r.sampling.base_url@ == r.base_url@,
        r.sampling.warmup_secs == scenario.warmup_secs,
        r.sampling.measure_secs == scenario.measure_secs,
        r.sampling.cooldown_secs == scenario.cooldown_secs,
        r.sampling.poll_interval_ms == global.poll_interval_ms,
{
    let offset: u16 = (idx % 0x1_0000) as u16;
    let port: u16 = global.base_port.saturating_add(offset);
    let mut dashboard_addr = global.dashboard_host.clone();
    dashboard_addr.append(":");
    push_decimal(&mut dashboard_addr, port as u64);
    let mut base_url = "http://".to_string();
    base_url.append(dashboard_addr.as_str());
    let gateway_config = render_gateway_config(scenario, dashboard_addr.as_str());
    let http_load = match &scenario.http_load {
        Some(load) => if load.enabled {
            Some(
                HttpLoadPlan {
                    base_url: base_url.clone(),
                    endpoint: load.endpoint.clone(),
                    concurrency: load.concurrency,
                    timeout_ms: load.timeout_ms,
                },
            )
        } else {
            None
        },
        None => None,
    };
    let sampling = SamplingConfig {
        scenario_id: scenario.id.clone(),
        base_url: base_url.clone(),
        warmup_secs: scenario.warmup_secs,
        measure_secs: scenario.measure_secs,
        cooldown_secs: scenario.cooldown_secs,
        poll_interval_ms: global.poll_interval_ms,
    };
    ScenarioPlan { port, dashboard_addr, base_url, gateway_config, http_load, sampling }
}

/// What a run does next.
#[derive(Clone, Copy, Debug, PartialEq, Eq, Structural)]
pub enum BenchStep {
    CreateRunDir,
    CreateScenarioDir,
    WriteGatewayConfig,
    CreateLogs,
    SpawnGateway,
    WaitReady,
    StartHttpLoad,
    Sample,
    WriteHttpMetrics,
    StopGateway,
    Summarize,
    WriteSummary,
    WriteChecks,
    WriteDigest,
    Finished,
}

/// Where a run stands: the step to do, and the position of the scenario it is for.
#[derive(Clone, Copy, Debug, PartialEq, Eq, Structural)]
pub struct BenchProgress {
    pub step: BenchStep,
    pub idx: usize,
}

/// Where a run of `count` scenarios stands after the step at `p` is done. HTTP load is made, and
/// its metrics are written, only where the scenario has load.
pub open spec fn progress_after(p: BenchProgress, count: usize, has_load: bool) -> BenchProgress {
    let step = match p.step {
        BenchStep::CreateRunDir => if count == 0 {
            BenchStep::Finished
        } else {
            BenchStep::CreateScenarioDir
        },
        BenchStep::CreateScenarioDir => BenchStep::WriteGatewayConfig,
        BenchStep::WriteGatewayConfig => BenchStep::CreateLogs,
        BenchStep::CreateLogs => BenchStep::SpawnGateway,
        BenchStep::SpawnGateway => BenchStep::WaitReady,
        BenchStep::WaitReady => if has_load {
            BenchStep::StartHttpLoad
        } else {
            BenchStep::Sample
        },
        BenchStep::StartHttpLoad => BenchStep::Sample,
        BenchStep::Sample => if has_load {
            BenchStep::WriteHttpMetrics
        } else {
            BenchStep::StopGateway
        },
        BenchStep::WriteHttpMetrics => BenchStep::StopGateway,
        BenchStep::StopGateway => BenchStep::Summarize,
        BenchStep::Summarize => BenchStep::WriteSummary,
        BenchStep::WriteSummary => BenchStep::WriteChecks,
        BenchStep::WriteChecks => BenchStep::WriteDigest,
        BenchStep::WriteDigest => if p.idx + 1 < count {
            BenchStep::CreateScenarioDir
        } else {
            BenchStep::Finished
        },
        BenchStep::Finished => BenchStep::Finished,
    };
    let idx = if p.step == BenchStep::WriteDigest && p.idx + 1 < count {
        (p.idx + 1) as usize
    } else {
        p.idx
    };
    BenchProgress { step, idx }
}

impl BenchProgress {
    /// The start of a run.
    pub fn new() -> (r: Self)
        ensures
            r == (BenchProgress { step: BenchStep::CreateRunDir, idx: 0 }),
    {
        BenchProgress { step: BenchStep::CreateRunDir, idx: 0 }
    }

    /// Goes on once the present step is done.
    pub fn advance(&mut self, count: usize, has_load: bool)
        ensures
            *final(self) == progress_after(*old(self), count, has_load),
    {
        let step = match self.step {
            BenchStep::CreateRunDir => if count == 0 {
                BenchStep::Finished
            } else {
                BenchStep::CreateScenarioDir
            },
            BenchStep::CreateScenarioDir => BenchStep::WriteGatewayConfig,
            BenchStep::WriteGatewayConfig => BenchStep::CreateLogs,
            BenchStep::CreateLogs => BenchStep::SpawnGateway,
            BenchStep::SpawnGateway => BenchStep::WaitReady,
            BenchStep::WaitReady => if has_load {
                BenchStep::StartHttpLoad
            } else {
                BenchStep::Sample
            },
            BenchStep::StartHttpLoad => BenchStep::Sample,
            BenchStep::Sample => if has_load {
                BenchStep::WriteHttpMetrics
            } else {
                BenchStep::StopGateway
            },
            BenchStep::WriteHttpMetrics => BenchStep::StopGateway,
            BenchStep::StopGateway => BenchStep::Summarize,
            BenchStep::Summarize => BenchStep::WriteSummary,
            BenchStep::WriteSummary => BenchStep::WriteChecks,
            BenchStep::WriteChecks => BenchStep::WriteDigest,
            BenchStep::WriteDigest => if self.idx < count && self.idx + 1 < count {
                BenchStep::CreateScenarioDir
            } else {
                BenchStep::Finished
            },
            BenchStep::Finished => BenchStep::Finished,
        };
        if self.step == BenchStep::WriteDigest && self.idx < count && self.idx + 1 < count {
            self.idx = self.idx + 1;
        }
        self.step = step;
    }

    /// Goes on once the present step is done; where it failed, the run ends with its error.
    pub fn after_step(self, outcome: Result<(), String>, count: usize, has_load: bool) -> (r: Result<
        BenchProgress,
        String,
    >)
        ensures
            match outcome {
                Ok(_) => r matches Ok(p) && p == progress_after(self, count, has_load),
                Err(e) => r == Err::<BenchProgress, String>(e),
            },
    {
        match outcome {
            Ok(_) => {
                let mut p = self;
                p.advance(count, has_load);
                Ok(p)
            },
            Err(e) => Err(e),
        }
    }
}

/// Where a run stands after steps with these outcomes, or the error with which it ended. `loads`
/// says which scenarios have HTTP load.
pub open spec fn run_after(
    outcomes: Seq<Result<(), String>>,
    count: usize,
    loads: spec_fn(usize) -> bool,
) -> Result<BenchProgress, String>
    decreases outcomes.len(),
{
    if outcomes.len() == 0 {
        Ok(BenchProgress { step: BenchStep::CreateRunDir, idx: 0 })
    } else {
        match run_after(outcomes.drop_last(), count, loads) {
            Ok(p) => match outcomes.last() {
                Ok(_) => Ok(progress_after(p, count, loads(p.idx))),
                Err(e) => Err(e),
            },
            Err(e) => Err(e),
        }
    }
}

/// The first failure ends a run: its error is what the run returns, and no later step, so no
/// later scenario, is come to. Without a failure the run goes on step by step.
pub proof fn lemma_first_failure_ends_run(
    outcomes: Seq<Result<(), String>>,
    count: usize,
    loads: spec_fn(usize) -> bool,
    k: int,
)
    requires
        0 <= k <= outcomes.len(),
        forall|j: int| 0 <= j < k ==> (#[trigger] outcomes[j]) is Ok,
        k < outcomes.len() ==> outcomes[k] is Err,
    ensures
        run_after(outcomes, count, loads) == if k < outcomes.len() {
            Err::<BenchProgress, String>(outcomes[k]->Err_0)
        } else {
            Ok(progress_at(k as nat, count, loads))
        },
    decreases outcomes.len(),
{
    if outcomes.len() > 0 {
        let init = outcomes.drop_last();
        assert forall|j: int| 0 <= j < init.len() implies (#[trigger] init[j]) == outcomes[j] by {}
        if k < outcomes.len() {
            lemma_first_failure_ends_run(init, count, loads, k);
        } else {
            lemma_first_failure_ends_run(init, count, loads, k - 1);
            assert(outcomes[k - 1] is Ok);
        }
    }
}

/// How many steps, at most, are left of one scenario.
pub open spec fn steps_left(step: BenchStep) -> nat {
    match step {
        BenchStep::CreateRunDir => 14,
        BenchStep::CreateScenarioDir => 13,
        BenchStep::WriteGatewayConfig => 12,
        BenchStep::CreateLogs => 11,
        BenchStep::SpawnGateway => 10,
        BenchStep::WaitReady => 9,
        BenchStep::StartHttpLoad => 8,
        BenchStep::Sample => 7,
        BenchStep::WriteHttpMetrics => 6,
        BenchStep::StopGateway => 5,
        BenchStep::Summarize => 4,
        BenchStep::WriteSummary => 3,
        BenchStep::WriteChecks => 2,
        BenchStep::WriteDigest => 1,
        BenchStep::Finished => 0,
    }
}

/// How many steps, at most, are left of a run.
pub open spec fn run_steps_left(p: BenchProgress, count: usize) -> int {
    if p.step == BenchStep::Finished {
        0
    } else {
        (count - p.idx) * 20 + steps_left(p.step)
    }
}

/// Every run ends: each step leaves fewer to do, and never leads past the last scenario.
pub proof fn lemma_run_ends(p: BenchProgress, count: usize, has_load: bool)
    requires
        p.step != BenchStep::Finished,
        p.idx < count || (p.idx == 0 && count == 0 && p.step == BenchStep::CreateRunDir),
    ensures
        0 <= run_steps_left(progress_after(p, count, has_load), count) < run_steps_left(p, count),
        progress_after(p, count, has_load).step == BenchStep::Finished || progress_after(
            p,
            count,
            has_load,
        ).idx < count,
{
}

/// The state of a run after `n` steps. `loads` says which scenarios have HTTP load.
pub open spec fn progress_at(n: nat, count: usize, loads: spec_fn(usize) -> bool) -> BenchProgress
    decreases n,
{
    if n == 0 {
        BenchProgress { step: BenchStep::CreateRunDir, idx: 0 }
    } else {
        let p = progress_at((n - 1) as nat, count, loads);
        progress_after(p, count, loads(p.idx))
    }
}

/// From the start of a scenario a run comes to its digest.
proof fn lemma_scenario_is_digested(
    n: nat,
    count: usize,
    loads: spec_fn(usize) -> bool,
    idx: usize,
) -> (m: nat)
    requires
        progress_at(n, count, loads) == (BenchProgress { step: BenchStep::CreateScenarioDir, idx }),
    ensures
        progress_at(m, count, loads) == (BenchProgress { step: BenchStep::WriteDigest, idx }),
{
    assert(progress_at(n + 1, count, loads).step == BenchStep::WriteGatewayConfig);
    assert(progress_at(n + 2, count, loads).step == BenchStep::CreateLogs);
    assert(progress_at(n + 3, count, loads).step == BenchStep::SpawnGateway);
    assert(progress_at(n + 4, count, loads).step == BenchStep::WaitReady);
    if loads(idx) {
        assert(progress_at(n + 5, count, loads).step == BenchStep::StartHttpLoad);
        assert(progress_at(n + 6, count, loads).step == BenchStep::Sample);
        assert(progress_at(n + 7, count, loads).step == BenchStep::WriteHttpMetrics);
        assert(progress_at(n + 8, count, loads).step == BenchStep::StopGateway);
        assert(progress_at(n + 9, count, loads).step == BenchStep::Summarize);
        assert(progress_at(n + 10, count, loads).step == BenchStep::WriteSummary);
        assert(progress_at(n + 11, count, loads).step == BenchStep::WriteChecks);
        assert(progress_at(n + 12, count, loads).step == BenchStep::WriteDigest);
        n + 12
    } else {
        assert(progress_at(n + 5, count, loads).step == BenchStep::Sample);
        assert(progress_at(n + 6, count, loads).step == BenchStep::StopGateway);
        assert(progress_at(n + 7, count, loads).step == BenchStep::Summarize);
        assert(progress_at(n + 8, count, loads).step == BenchStep::WriteSummary);
        assert(progress_at(n + 9, count, loads).step == BenchStep::WriteChecks);
        assert(progress_at(n + 10, count, loads).step == BenchStep::WriteDigest);
        n + 10
    }
}

/// A run comes to the start of every scenario.
proof fn lemma_scenario_starts(count: usize, loads: spec_fn(usize) -> bool, idx: usize) -> (n: nat)
    requires
        idx < count,
    ensures
        progress_at(n, count, loads) == (BenchProgress { step: BenchStep::CreateScenarioDir, idx }),
    decreases idx,
{
    if idx == 0 {
        assert(progress_at(0, count, loads).step == BenchStep::CreateRunDir);
        assert(progress_at(1, count, loads).step == BenchStep::CreateScenarioDir);
        1
    } else {
        let before = (idx - 1) as usize;
        let n = lemma_scenario_starts(count, loads, before);
        let m = lemma_scenario_is_digested(n, count, loads, before);
        assert(progress_at(m + 1, count, loads).step == BenchStep::CreateScenarioDir);
        m + 1
    }
}

/// A run without failures samples every scenario, writes its digest, and then is finished.
pub proof fn lemma_every_scenario_is_run(
    count: usize,
    loads: spec_fn(usize) -> bool,
    idx: usize,
)
    ensures
        idx < count ==> exists|n: nat| #[trigger]
            progress_at(n, count, loads) == (BenchProgress { step: BenchStep::WriteDigest, idx }),
        exists|n: nat| (#[trigger] progress_at(n, count, loads)).step == BenchStep::Finished,
{
    if idx < count {
        let n = lemma_scenario_starts(count, loads, idx);
        let m = lemma_scenario_is_digested(n, count, loads, idx);
        assert(progress_at(m, count, loads).step == BenchStep::WriteDigest);
    }
    if count == 0 {
        assert(progress_at(0, count, loads).step == BenchStep::CreateRunDir);
        assert(progress_at(1, count, loads).step == BenchStep::Finished);
    } else {
        let last = (count - 1) as usize;
        let n = lemma_scenario_starts(count, loads, last);
        let m = lemma_scenario_is_digested(n, count, loads, last);
        assert(progress_at(m + 1, count, loads).step == BenchStep::Finished);
    }
}

/// Whether the gateway of the present scenario runs.
pub open spec fn gateway_runs(step: BenchStep) -> bool {
    match step {
        BenchStep::WaitReady => true,
        BenchStep::StartHttpLoad => true,
        BenchStep::Sample => true,
        BenchStep::WriteHttpMetrics => true,
        BenchStep::StopGateway => true,
        _ => false,
    }
}

/// One gateway at a time: a run starts a gateway only where none runs, samples only where one
/// runs, and goes on to the next scenario, or ends, only once it is stopped.
pub proof fn lemma_one_gateway_at_a_time(p: BenchProgress, count: usize, has_load: bool)
    ensures
        ({
            let q = progress_after(p, count, has_load);
            &&& gateway_runs(q.step) && !gateway_runs(p.step) ==> p.step == BenchStep::SpawnGateway
            &&& !gateway_runs(q.step) && gateway_runs(p.step) ==> p.step == BenchStep::StopGateway
            &&& p.step == BenchStep::SpawnGateway ==> !gateway_runs(p.step)
            &&& p.step == BenchStep::Sample ==> gateway_runs(p.step)
            &&& q.idx != p.idx ==> !gateway_runs(p.step) && !gateway_runs(q.step)
            &&& q.step == BenchStep::Finished ==> !gateway_runs(p.step)
            &&& q.step == BenchStep::StartHttpLoad || q.step == BenchStep::WriteHttpMetrics
                ==> has_load
        }),
{
}

/// Why a run fails.
#[derive(Clone, Copy, Debug, PartialEq, Eq, Structural)]
pub enum BenchFailure {
    ReadConfig,
    ParseConfig,
    CreateRunDir,
    CreateScenarioDir,
    WriteGatewayConfig,
    CreateStdoutLog,
    CreateStderrLog,
    SpawnGateway,
    BuildClient,
    SerializeHttpMetrics,
    WriteHttpMetrics,
    SerializeSummary,
    WriteSummary,
    SerializeChecks,
    WriteChecks,
    CreateSamples,
    WriteSamplesHeader,
    BuildSamplerClient,
    SampleBuffer,
    ParseBuffer,
    SampleStats,
    ParseStats,
    AppendSample,
    ReadHttpMetrics,
    ParseHttpMetrics,
    WriteDigest,
}

impl BenchFailure {
    /// What the message starts with, and whether the subject (a path or a program) follows.
    pub open spec fn lead(self) -> (Seq<char>, bool) {
        match self {
            BenchFailure::ReadConfig => ("failed to read benchmark config "@, true),
            BenchFailure::ParseConfig => ("failed to parse benchmark config"@, false),
            BenchFailure::CreateRunDir => ("failed to create run output dir "@, true),
            BenchFailure::CreateScenarioDir => ("failed to create scenario dir "@, true),
            BenchFailure::WriteGatewayConfig => (
                "failed to write scenario gateway config"@,
                false,
            ),
            BenchFailure::CreateStdoutLog => ("failed to create stdout log"@, false),
            BenchFailure::CreateStderrLog => ("failed to create stderr log"@, false),
            BenchFailure::SpawnGateway => ("failed to spawn gateway process "@, true),
            BenchFailure::BuildClient => ("failed to build http client"@, false),
            BenchFailure::SerializeHttpMetrics => ("serialize http metrics"@, false),
            BenchFailure::WriteHttpMetrics => ("write http metrics"@, false),
            BenchFailure::SerializeSummary => ("serialize summary"@, false),
            BenchFailure::WriteSummary => ("write summary"@, false),
            BenchFailure::SerializeChecks => ("serialize checks"@, false),
            BenchFailure::WriteChecks => ("write checks"@, false),
            BenchFailure::CreateSamples => ("failed to create "@, true),
            BenchFailure::WriteSamplesHeader => ("failed to write csv header"@, false),
            BenchFailure::BuildSamplerClient => ("failed to build sampler client"@, false),
            BenchFailure::SampleBuffer => ("sampling /api/buffer failed"@, false),
            BenchFailure::ParseBuffer => ("parse /api/buffer failed"@, false),
            BenchFailure::SampleStats => ("sampling /api/stats failed"@, false),
            BenchFailure::ParseStats => ("parse /api/stats failed"@, false),
            BenchFailure::AppendSample => ("failed to append sample row"@, false),
            BenchFailure::ReadHttpMetrics => ("read http metrics "@, true),
            BenchFailure::ParseHttpMetrics => ("parse http metrics "@, true),
            BenchFailure::WriteDigest => ("write "@, true),
        }
    }

    /// The message: what failed, and the reason.
    pub open spec fn text(self, subject: Seq<char>, reason: Seq<char>) -> Seq<char> {
        let (lead, named) = self.lead();
        if named {
            lead + subject + ": "@ + reason
        } else {
            lead + ": "@ + reason
        }
    }

    /// Writes the message.
    pub fn message(&self, subject: &str, reason: &str) -> (r: String)
        ensures
            r@ == self.text(subject@, reason@),
    {
        let (lead, named): (&str, bool) = match self {
            BenchFailure::ReadConfig => ("failed to read benchmark config ", true),
            BenchFailure::ParseConfig => ("failed to parse benchmark config", false),
            BenchFailure::CreateRunDir => ("failed to create run output dir ", true),
            BenchFailure::CreateScenarioDir => ("failed to create scenario dir ", true),
            BenchFailure::WriteGatewayConfig => (
                "failed to write scenario gateway config",
                false,
            ),
            BenchFailure::CreateStdoutLog => ("failed to create stdout log", false),
            BenchFailure::CreateStderrLog => ("failed to create stderr log", false),
            BenchFailure::SpawnGateway => ("failed to spawn gateway process ", true),
            BenchFailure::BuildClient => ("failed to build http client", false),
            BenchFailure::SerializeHttpMetrics => ("serialize http metrics", false),
            BenchFailure::WriteHttpMetrics => ("write http metrics", false),
            BenchFailure::SerializeSummary => ("serialize summary", false),
            BenchFailure::WriteSummary => ("write summary", false),
            BenchFailure::SerializeChecks => ("serialize checks", false),
            BenchFailure::WriteChecks => ("write checks", false),
            BenchFailure::CreateSamples => ("failed to create ", true),
            BenchFailure::WriteSamplesHeader => ("failed to write csv header", false),
            BenchFailure::BuildSamplerClient => ("failed to build sampler client", false),
            BenchFailure::SampleBuffer => ("sampling /api/buffer failed", false),
            BenchFailure::ParseBuffer => ("parse /api/buffer failed", false),
            BenchFailure::SampleStats => ("sampling /api/stats failed", false),
            BenchFailure::ParseStats => ("parse /api/stats failed", false),
            BenchFailure::AppendSample => ("failed to append sample row", false),
            BenchFailure::ReadHttpMetrics => ("read http metrics ", true),
            BenchFailure::ParseHttpMetrics => ("parse http metrics ", true),
            BenchFailure::WriteDigest => ("write ", true),
        };
        let mut r = lead.to_string();
        if named {
            r.append(subject);
        }
        r.append(": ");
        r.append(reason);
        r
    }
}

/// What a wait for the dashboard does next.
#[derive(Debug)]
pub enum ReadyStep {
    /// Ask the dashboard again.
    Ask,
    /// It is ready.
    Ready,
    /// Sleep, then see.
    Sleep,
    /// It is not ready in time.
    GiveUp(String),
}

/// The message for a dashboard that is not ready in time.
pub open spec fn not_ready_text(timeout_secs: u64, base_url: Seq<char>) -> Seq<char> {
    "dashboard not ready in "@ + decimal(timeout_secs as nat) + "s: "@ + base_url
}

/// What a wait does with an answer of the dashboard: `None` before it asks, and whether it
/// answered with success after.
pub fn ready_step(
    answer: Option<bool>,
    time_is_up: bool,
    timeout_secs: u64,
    base_url: &str,
) -> (r: ReadyStep)
    ensures
        match r {
            ReadyStep::Ready => answer == Some(true),
            ReadyStep::Sleep => answer == Some(false),
            ReadyStep::Ask => answer is None && !time_is_up,
            ReadyStep::GiveUp(message) => answer is None && time_is_up && message@
                == not_ready_text(timeout_secs, base_url@),
        },
{
    match answer {
        Some(true) => ReadyStep::Ready,
        Some(false) => ReadyStep::Sleep,
        None => if time_is_up {
            let mut message = "dashboard not ready in ".to_string();
            push_decimal(&mut message, timeout_secs);
            message.append("s: ");
            message.append(base_url);
            ReadyStep::GiveUp(message)
        } else {
            ReadyStep::Ask
        },
    }
}

/// The port of a scenario's dashboard is the first port and the scenario's position, up to the last
/// port there is.
pub proof fn lemma_scenario_port(base_port: u16, idx: usize)
    ensures
        base_port + idx <= 0xffff ==> scenario_port(base_port, idx) == base_port + idx,
        base_port + idx > 0xffff && idx <= 0xffff ==> scenario_port(base_port, idx) == 0xffff,
        0 <= scenario_port(base_port, idx) <= 0xffff,
{
}

/// What each failure says.
pub proof fn lemma_what_failures_say(subject: Seq<char>, reason: Seq<char>)
    ensures
        BenchFailure::ReadConfig.text(subject, reason) == "failed to read benchmark config "@ + subject + ": "@ + reason,
        BenchFailure::ParseConfig.text(subject, reason) == "failed to parse benchmark config"@ + ": "@ + reason,
        BenchFailure::CreateRunDir.text(subject, reason) == "failed to create run output dir "@ + subject + ": "@ + reason,
        BenchFailure::CreateScenarioDir.text(subject, reason) == "failed to create scenario dir "@ + subject + ": "@ + reason,
        BenchFailure::WriteGatewayConfig.text(subject, reason) == "failed to write scenario gateway config"@ + ": "@ + reason,
        BenchFailure::CreateStdoutLog.text(subject, reason) == "failed to create stdout log"@ + ": "@ + reason,
        BenchFailure::CreateStderrLog.text(subject, reason) == "failed to create stderr log"@ + ": "@ + reason,
        BenchFailure::SpawnGateway.text(subject, reason) == "failed to spawn gateway process "@ + subject + ": "@ + reason,
        BenchFailure::BuildClient.text(subject, reason) == "failed to build http client"@ + ": "@ + reason,
        BenchFailure::SerializeHttpMetrics.text(subject, reason) == "serialize http metrics"@ + ": "@ + reason,
        BenchFailure::WriteHttpMetrics.text(subject, reason) == "write http metrics"@ + ": "@ + reason,
        BenchFailure::SerializeSummary.text(subject, reason) == "serialize summary"@ + ": "@ + reason,
        BenchFailure::WriteSummary.text(subject, reason) == "write summary"@ + ": "@ + reason,
        BenchFailure::SerializeChecks.text(subject, reason) == "serialize checks"@ + ": "@ + reason,
        BenchFailure::WriteChecks.text(subject, reason) == "write checks"@ + ": "@ + reason,
        BenchFailure::CreateSamples.text(subject, reason) == "failed to create "@ + subject + ": "@ + reason,
        BenchFailure::WriteSamplesHeader.text(subject, reason) == "failed to write csv header"@ + ": "@ + reason,
        BenchFailure::BuildSamplerClient.text(subject, reason) == "failed to build sampler client"@ + ": "@ + reason,
        BenchFailure::SampleBuffer.text(subject, reason) == "sampling /api/buffer failed"@ + ": "@ + reason,
        BenchFailure::ParseBuffer.text(subject, reason) == "parse /api/buffer failed"@ + ": "@ + reason,
        BenchFailure::SampleStats.text(subject, reason) == "sampling /api/stats failed"@ + ": "@ + reason,
        BenchFailure::ParseStats.text(subject, reason) == "parse /api/stats failed"@ + ": "@ + reason,
        BenchFailure::AppendSample.text(subject, reason) == "failed to append sample row"@ + ": "@ + reason,
        BenchFailure::ReadHttpMetrics.text(subject, reason) == "read http metrics "@ + subject + ": "@ + reason,
        BenchFailure::ParseHttpMetrics.text(subject, reason) == "parse http metrics "@ + subject + ": "@ + reason,
        BenchFailure::WriteDigest.text(subject, reason) == "write "@ + subject + ": "@ + reason,
{
}

/// A run goes through the steps of a scenario in this order; load is made, and its metrics are
/// written, only where the scenario has load; and after the digest comes the next scenario, or the
/// end after the last.
pub proof fn lemma_order_of_steps(idx: usize, count: usize, has_load: bool)
    requires
        idx < count,
    ensures
        ({
            let after = |step: BenchStep| progress_after(BenchProgress { step, idx }, count, has_load);
            &&& after(BenchStep::CreateRunDir).step == BenchStep::CreateScenarioDir
            &&& after(BenchStep::CreateScenarioDir).step == BenchStep::WriteGatewayConfig
            &&& after(BenchStep::WriteGatewayConfig).step == BenchStep::CreateLogs
            &&& after(BenchStep::CreateLogs).step == BenchStep::SpawnGateway
            &&& after(BenchStep::SpawnGateway).step == BenchStep::WaitReady
            &&& has_load ==> after(BenchStep::WaitReady).step == BenchStep::StartHttpLoad && after(
                BenchStep::StartHttpLoad,
            ).step == BenchStep::Sample && after(BenchStep::Sample).step
                == BenchStep::WriteHttpMetrics && after(BenchStep::WriteHttpMetrics).step
                == BenchStep::StopGateway
            &&& !has_load ==> after(BenchStep::WaitReady).step == BenchStep::Sample && after(
                BenchStep::Sample,
            ).step == BenchStep::StopGateway
            &&& after(BenchStep::StopGateway).step == BenchStep::Summarize
            &&& after(BenchStep::Summarize).step == BenchStep::WriteSummary
            &&& after(BenchStep::WriteSummary).step == BenchStep::WriteChecks
            &&& after(BenchStep::WriteChecks).step == BenchStep::WriteDigest
            &&& idx + 1 < count ==> after(BenchStep::WriteDigest) == (BenchProgress {
                step: BenchStep::CreateScenarioDir,
                idx: (idx + 1) as usize,
            })
            &&& idx + 1 == count ==> after(BenchStep::WriteDigest).step == BenchStep::Finished
            &&& forall|step: BenchStep|
                step != BenchStep::WriteDigest ==> (#[trigger] after(step)).idx == idx
        }),
{
}

/// The configuration file of a scenario's gateway has its sensors, its buffer and the address of
/// its dashboard.
pub proof fn lemma_gateway_config(s: ScenarioConfig, dashboard_addr: Seq<char>)
    ensures
        gateway_config_text(s, dashboard_addr) == "[sensors]\nthermo_count = "@ + decimal(
            s.sensors.thermo_count as nat,
        ) + "\nthermo_rates_per_sec = \""@ + s.sensors.thermo_rates_per_sec@
            + "\"\naccel_count = "@ + decimal(s.sensors.accel_count as nat)
            + "\naccel_rates_per_sec = \""@ + s.sensors.accel_rates_per_sec@
            + "\"\nforce_count = "@ + decimal(s.sensors.force_count as nat)
            + "\nforce_rates_per_sec = \""@ + s.sensors.force_rates_per_sec@
            + "\"\n\n[buffer]\ncapacity = "@ + decimal(s.buffer_capacity as nat)
            + "\n\n[dashboard]\naddr = \""@ + dashboard_addr + "\"\n"@,
{
}

/// The limits where a scenario names none, as bit patterns of double-precision numbers; and the
/// message for a dashboard that is not ready in time.
pub proof fn lemma_default_limits(timeout_secs: u64, base_url: Seq<char>)
    ensures
        default_thresholds().max_http_error_rate == 0x3f84_7ae1_47ae_147b,
        default_thresholds().max_api_p95_ms == 0x4069_0000_0000_0000,
        default_thresholds().max_api_p99_ms == 0x407f_4000_0000_0000,
        default_thresholds().max_cpu_avg_pct == 0x4052_c000_0000_0000,
        default_thresholds().max_cpu_peak_pct == 0x4056_8000_0000_0000,
        default_thresholds().max_near_full_ratio == 0x3f84_7ae1_47ae_147b,
        not_ready_text(timeout_secs, base_url) == "dashboard not ready in "@ + decimal(
            timeout_secs as nat,
        ) + "s: "@ + base_url,
{
}

/// Positions that do not fit in 16 bits start over.
pub proof fn lemma_ports_start_over(base_port: u16, idx: usize)
    requires
        idx >= 0x1_0000,
    ensures
        scenario_port(base_port, idx) == scenario_port(base_port, (idx - 0x1_0000) as usize),
{
}

/// A run starts with its directory; without scenarios it ends there, and what has ended stays so.
pub proof fn lemma_run_without_scenarios(idx: usize, count: usize, has_load: bool)
    ensures
        progress_after(
            BenchProgress { step: BenchStep::CreateRunDir, idx },
            0,
            has_load,
        ).step == BenchStep::Finished,
        progress_after(BenchProgress { step: BenchStep::Finished, idx }, count, has_load) == (
        BenchProgress { step: BenchStep::Finished, idx }),
{
}

} // verus!
