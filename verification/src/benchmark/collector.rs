//! Sampling of a running gateway, and the load that is put on it.
use vstd::prelude::*;
use vstd::string::StringExecFns;
use crate::text::{
    char_views, chars_of, decimal, parse_number, push_decimal, read_number, tokens, tokens_of,
    NumberError,
};

verus! {

/// How one scenario is sampled.
#[derive(Clone, Debug)]
pub struct SamplingConfig {
    pub scenario_id: String,
    pub base_url: String,
    pub warmup_secs: u64,
    pub measure_secs: u64,
    pub cooldown_secs: u64,
    pub poll_interval_ms: u64,
}

/// The part of a scenario in which a sample is taken.
#[derive(Clone, Copy, Debug, PartialEq, Eq, Structural)]
pub enum Phase {
    Warmup,
    Measure,
    Cooldown,
}

impl Phase {
    /// The name of the phase.
    pub open spec fn text(self) -> Seq<char> {
        match self {
            Phase::Warmup => "warmup"@,
            Phase::Measure => "measure"@,
            Phase::Cooldown => "cooldown"@,
        }
    }

    /// The name of the phase.
    pub fn name(&self) -> (r: &'static str)
        ensures
            r@ == self.text(),
    {
        match self {
            Phase::Warmup => "warmup",
            Phase::Measure => "measure",
            Phase::Cooldown => "cooldown",
        }
    }
}

impl SamplingConfig {
    /// How many seconds sampling takes.
    pub open spec fn total_secs(&self) -> int {
        self.warmup_secs + self.measure_secs + self.cooldown_secs
    }

    /// The phase after `elapsed` seconds.
    pub open spec fn phase_after(&self, elapsed: int) -> Phase {
        if elapsed < self.warmup_secs {
            Phase::Warmup
        } else if elapsed < self.warmup_secs + self.measure_secs {
            Phase::Measure
        } else {
            Phase::Cooldown
        }
    }

    /// Whether another sample is to be taken after `elapsed` seconds.
    pub fn goes_on(&self, elapsed: u64) -> (b: bool)
        requires
            self.total_secs() <= u64::MAX,
        ensures
            b == (elapsed < self.total_secs()),
    {
        elapsed < self.warmup_secs + self.measure_secs + self.cooldown_secs
    }

    /// The phase after `elapsed` seconds.
    pub fn phase(&self, elapsed: u64) -> (r: Phase)
        requires
            self.total_secs() <= u64::MAX,
        ensures
            r == self.phase_after(elapsed as int),
    {
        if elapsed < self.warmup_secs {
            Phase::Warmup
        } else if elapsed < self.warmup_secs + self.measure_secs {
            Phase::Measure
        } else {
            Phase::Cooldown
        }
    }

    /// The time between two samples in milliseconds: as configured, but no less than 200.
    pub fn interval_ms(&self) -> (r: u64)
        ensures
            r == if self.poll_interval_ms >= 200 {
                self.poll_interval_ms
            } else {
                200
            },
    {
        if self.poll_interval_ms >= 200 {
            self.poll_interval_ms
        } else {
            200
        }
    }

    /// Whether the durations add up within the range of a clock.
    pub fn durations_fit(&self) -> (b: bool)
        ensures
            b == (self.total_secs() <= u64::MAX),
    {
        self.measure_secs <= u64::MAX - self.warmup_secs && self.cooldown_secs <= u64::MAX
            - self.warmup_secs - self.measure_secs
    }
}

/// Phases follow each other without gap: a scenario measures for exactly its measuring time,
/// after its warm-up.
pub proof fn lemma_phases_follow(cfg: SamplingConfig, elapsed: int)
    requires
        0 <= elapsed,
    ensures
        cfg.phase_after(elapsed) == Phase::Warmup <==> elapsed < cfg.warmup_secs,
        cfg.phase_after(elapsed) == Phase::Measure <==> cfg.warmup_secs <= elapsed
            < cfg.warmup_secs + cfg.measure_secs,
        cfg.phase_after(elapsed) == Phase::Cooldown <==> elapsed >= cfg.warmup_secs
            + cfg.measure_secs,
{
}

/// One sample. Utilization and CPU load are double-precision numbers, as their bit patterns.
#[derive(Clone, Debug)]
pub struct SampleRow {
    pub ts_ms: u64,
    pub phase: String,
    pub any_full: bool,
    pub any_near_full: bool,
    pub peak_sensor_utilization: u64,
    pub total_frames: usize,
    pub latest_window_end: u64,
    pub pipeline_latency_ms: u64,
    pub cpu_pct: u64,
}

/// What a sample says.
pub struct RowView {
    pub ts_ms: u64,
    pub phase: Seq<char>,
    pub any_full: bool,
    pub any_near_full: bool,
    pub peak_sensor_utilization: u64,
    pub total_frames: usize,
    pub latest_window_end: u64,
    pub pipeline_latency_ms: u64,
    pub cpu_pct: u64,
}

impl View for SampleRow {
    type V = RowView;

    open spec fn view(&self) -> RowView {
        RowView {
            ts_ms: self.ts_ms,
            phase: self.phase@,
            any_full: self.any_full,
            any_near_full: self.any_near_full,
            peak_sensor_utilization: self.peak_sensor_utilization,
            total_frames: self.total_frames,
            latest_window_end: self.latest_window_end,
            pipeline_latency_ms: self.pipeline_latency_ms,
            cpu_pct: self.cpu_pct,
        }
    }
}

/// What a list of samples says.
pub open spec fn row_views(v: Seq<SampleRow>) -> Seq<RowView> {
    v.map_values(|r: SampleRow| r@)
}

/// What the dashboard reported for one sample.
#[derive(Clone, Copy, Debug, PartialEq, Eq, Structural)]
pub struct Report {
    pub any_full: bool,
    pub any_near_full: bool,
    pub peak_sensor_utilization: u64,
    pub total_frames: usize,
    pub latest_window_end: Option<u64>,
    pub cpu_pct: u64,
}

/// Makes a sample: frames lag behind by the time since the latest window ended.
pub fn sample_row(phase: Phase, now_ms: u64, report: Report) -> (r: SampleRow)
    ensures
        ({
            let latest = match report.latest_window_end {
                Some(end) => end,
                None => 0,
            };
            r@ == (RowView {
                ts_ms: now_ms,
                phase: phase.text(),
                any_full: report.any_full,
                any_near_full: report.any_near_full,
                peak_sensor_utilization: report.peak_sensor_utilization,
                total_frames: report.total_frames,
                latest_window_end: latest,
                pipeline_latency_ms: if now_ms >= latest {
                    (now_ms - latest) as u64
                } else {
                    0
                },
                cpu_pct: report.cpu_pct,
            })
        }),
        report.latest_window_end matches Some(end) ==> r.latest_window_end == end && (end <= now_ms
            ==> end + r.pipeline_latency_ms == now_ms) && (end > now_ms ==> r.pipeline_latency_ms
            == 0),
        report.latest_window_end is None ==> r.pipeline_latency_ms == now_ms,
        phase is Measure <==> r.phase@ == "measure"@,
{
    proof {
        reveal_strlit("warmup");
        reveal_strlit("measure");
        reveal_strlit("cooldown");
        assert("measure"@[0] == 'm');
        assert("warmup"@[0] == 'w');
        assert("cooldown"@[0] == 'c');
    }
    let latest_window_end = match report.latest_window_end {
        Some(end) => end,
        None => 0,
    };
    SampleRow {
        ts_ms: now_ms,
        phase: phase.name().to_string(),
        any_full: report.any_full,
        any_near_full: report.any_near_full,
        peak_sensor_utilization: report.peak_sensor_utilization,
        total_frames: report.total_frames,
        latest_window_end,
        pipeline_latency_ms: now_ms.saturating_sub(latest_window_end),
        cpu_pct: report.cpu_pct,
    }
}

/// The first line of a file of samples.
pub fn csv_header() -> (r: &'static str)
    ensures
        r@
            == "ts_ms,phase,any_full,any_near_full,peak_sensor_utilization,total_frames,latest_window_end,pipeline_latency_ms,cpu_pct"@,
{
    "ts_ms,phase,any_full,any_near_full,peak_sensor_utilization,total_frames,latest_window_end,pipeline_latency_ms,cpu_pct"
}

/// The text of a truth value.
pub open spec fn bool_text(b: bool) -> Seq<char> {
    if b {
        "true"@
    } else {
        "false"@
    }
}

/// The text of a truth value.
fn bool_name(b: bool) -> (r: &'static str)
    ensures
        r@ == bool_text(b),
{
    if b {
        "true"
    } else {
        "false"
    }
}

/// The line of a sample, given the texts of its utilization and CPU load.
pub open spec fn csv_text(r: RowView, utilization: Seq<char>, cpu: Seq<char>) -> Seq<char> {
    decimal(r.ts_ms as nat) + ","@ + r.phase + ","@ + bool_text(r.any_full) + ","@ + bool_text(
        r.any_near_full,
    ) + ","@ + utilization + ","@ + decimal(r.total_frames as nat) + ","@ + decimal(
        r.latest_window_end as nat,
    ) + ","@ + decimal(r.pipeline_latency_ms as nat) + ","@ + cpu
}

/// Writes the line of a sample.
pub fn csv_row(row: &SampleRow, utilization: &str, cpu: &str) -> (r: String)
    ensures
        r@ == csv_text(row@, utilization@, cpu@),
{
    let mut r = String::new();
    push_decimal(&mut r, row.ts_ms);
    r.append(",");
    r.append(row.phase.as_str());
    r.append(",");
    r.append(bool_name(row.any_full));
    r.append(",");
    r.append(bool_name(row.any_near_full));
    r.append(",");
    r.append(utilization);
    r.append(",");
    push_decimal(&mut r, row.total_frames as u64);
    r.append(",");
    push_decimal(&mut r, row.latest_window_end);
    r.append(",");
    push_decimal(&mut r, row.pipeline_latency_ms);
    r.append(",");
    r.append(cpu);
    assert(r@ =~= csv_text(row@, utilization@, cpu@));
    r
}

/// All samples of a scenario.
#[derive(Clone, Debug)]
pub struct SamplingResult {
    pub scenario_id: String,
    pub total_samples: usize,
    pub measured_samples: usize,
    pub samples: Vec<SampleRow>,
}

/// Whether a sample was taken while measuring.
pub open spec fn is_measured(r: RowView) -> bool {
    r.phase == "measure"@
}

/// The samples taken while measuring.
pub open spec fn measured(rows: Seq<RowView>) -> Seq<RowView> {
    rows.filter(|r: RowView| is_measured(r))
}

/// Closes the sampling of a scenario.
pub fn sampling_result(scenario_id: String, samples: Vec<SampleRow>) -> (r: SamplingResult)
    ensures
        r.scenario_id@ == scenario_id@,
        r.samples == samples,
        r.total_samples == samples@.len(),
        r.measured_samples == measured(row_views(samples@)).len(),
{
    let ghost rows = row_views(samples@);
    let mut measured_samples: usize = 0;
    let mut i: usize = 0;
    let name = "measure".to_string();
    proof {
        reveal(Seq::filter);
        assert(rows.take(0) =~= Seq::empty());
    }
    while i < samples.len()
        invariant
            i <= samples.len(),
            rows == row_views(samples@),
            name@ == "measure"@,
            measured_samples == measured(rows.take(i as int)).len(),
            measured_samples <= i,
        decreases samples.len() - i,
    {
        proof {
            reveal(Seq::filter);
            assert(rows.take(i + 1).drop_last() =~= rows.take(i as int));
            assert(rows.take(i + 1).last() == samples@[i as int]@);
        }
        if samples[i].phase == name {
            measured_samples = measured_samples + 1;
        }
        i = i + 1;
    }
    assert(rows.take(i as int) =~= rows);
    SamplingResult { scenario_id, total_samples: samples.len(), measured_samples, samples }
}

/// The positions of the samples taken while measuring, in order.
pub fn measured_rows(sampling: &SamplingResult) -> (r: Vec<usize>)
    ensures
        forall|k: int|
            0 <= k < r@.len() ==> (#[trigger] r@[k]) < sampling.samples@.len() && is_measured(
                sampling.samples@[r@[k] as int]@,
            ),
        forall|a: int, b: int| 0 <= a < b < r@.len() ==> #[trigger] r@[a] < #[trigger] r@[b],
        forall|i: int|
            0 <= i < sampling.samples@.len() && is_measured((#[trigger] sampling.samples@[i])@)
                ==> r@.contains(i as usize),
        r@.map_values(|i: usize| sampling.samples@[i as int]@) == measured(
            row_views(sampling.samples@),
        ),
{
    let samples = &sampling.samples;
    let ghost rows = row_views(samples@);
    let ghost at = |i: usize| samples@[i as int]@;
    let name = "measure".to_string();
    let mut r: Vec<usize> = Vec::new();
    let mut i: usize = 0;
    proof {
        reveal(Seq::filter);
        assert(rows.take(0) =~= Seq::empty());
        assert(r@.map_values(at) =~= measured(rows.take(0)));
    }
    while i < samples.len()
        invariant
            i <= samples.len(),
            samples == &sampling.samples,
            rows == row_views(samples@),
            at == (|i: usize| samples@[i as int]@),
            name@ == "measure"@,
            forall|k: int|
                0 <= k < r@.len() ==> (#[trigger] r@[k]) < i && is_measured(
                    samples@[r@[k] as int]@,
                ),
            forall|a: int, b: int| 0 <= a < b < r@.len() ==> #[trigger] r@[a] < #[trigger] r@[b],
            forall|j: int|
                0 <= j < i && is_measured((#[trigger] samples@[j])@) ==> r@.contains(j as usize),
            r@.map_values(at) == measured(rows.take(i as int)),
        decreases samples.len() - i,
    {
        let ghost before = r@;
        proof {
            reveal(Seq::filter);
            assert(rows.take(i + 1).drop_last() =~= rows.take(i as int));
            assert(rows.take(i + 1).last() == samples@[i as int]@);
        }
        if samples[i].phase == name {
            r.push(i);
            proof {
                assert(r@[before.len() as int] == i);
                assert(r@.map_values(at) =~= before.map_values(at).push(samples@[i as int]@));
                assert forall|j: int|
                    0 <= j < i + 1 && is_measured((#[trigger] samples@[j])@) implies r@.contains(
                    j as usize,
                ) by {
                    if j < i {
                        let k = choose|k: int| 0 <= k < before.len() && before[k] == j as usize;
                        assert(r@[k] == j as usize);
                    }
                }
            }
        }
        i = i + 1;
    }
    assert(rows.take(i as int) =~= rows);
    r
}

/// What came of the requests that clients made. Its latencies are those of the successful ones.
#[derive(Clone, Debug)]
pub struct HttpLoadMetrics {
    pub success: u64,
    pub fail: u64,
    pub latencies_us: Vec<u64>,
}

impl Default for HttpLoadMetrics {
    fn default() -> (r: Self)
        ensures
            r.success == 0,
            r.fail == 0,
            r.latencies_us@ == Seq::<u64>::empty(),
    {
        HttpLoadMetrics { success: 0, fail: 0, latencies_us: Vec::new() }
    }
}

impl HttpLoadMetrics {
    /// Counts one request.
    pub fn record(&mut self, ok: bool, latency_us: u64)
        requires
            ok ==> old(self).success < u64::MAX,
            !ok ==> old(self).fail < u64::MAX,
        ensures
            final(self).success == if ok {
                old(self).success + 1
            } else {
                old(self).success as int
            },
            final(self).fail == if ok {
                old(self).fail as int
            } else {
                old(self).fail + 1
            },
            final(self).latencies_us@ == if ok {
                old(self).latencies_us@.push(latency_us)
            } else {
                old(self).latencies_us@
            },
    {
        if ok {
            self.success = self.success + 1;
            self.latencies_us.push(latency_us);
        } else {
            self.fail = self.fail + 1;
        }
    }
}

/// The counts and latencies after a sequence of requests, each with its success and latency.
pub open spec fn after_requests(requests: Seq<(bool, u64)>) -> (int, int, Seq<u64>)
    decreases requests.len(),
{
    if requests.len() == 0 {
        (0, 0, Seq::empty())
    } else {
        let (success, fail, latencies) = after_requests(requests.drop_last());
        let (ok, latency_us) = requests.last();
        if ok {
            (success + 1, fail, latencies.push(latency_us))
        } else {
            (success, fail + 1, latencies)
        }
    }
}

/// Every request counts once, as a success or as a failure, and every success has its latency.
pub proof fn lemma_requests_add_up(requests: Seq<(bool, u64)>)
    ensures
        after_requests(requests).0 + after_requests(requests).1 == requests.len(),
        after_requests(requests).2.len() == after_requests(requests).0,
    decreases requests.len(),
{
    if requests.len() > 0 {
        lemma_requests_add_up(requests.drop_last());
    }
}

/// The address that clients ask for.
pub fn load_url(base_url: &str, endpoint: &str) -> (r: String)
    ensures
        r@ == base_url@ + endpoint@,
{
    let mut r = base_url.to_string();
    r.append(endpoint);
    r
}

/// The CPU time of a process, against that of the machine, since the last sample.
#[derive(Clone, Copy, Debug, PartialEq, Eq, Structural)]
pub struct CpuSampler {
    pub pid: u32,
    pub last_proc_jiffies: u64,
    pub last_total_jiffies: u64,
}

impl CpuSampler {
    /// A sampler that starts from the given times.
    pub fn new(pid: u32, proc_jiffies: u64, total_jiffies: u64) -> (r: Self)
        ensures
            r == (CpuSampler {
                pid,
                last_proc_jiffies: proc_jiffies,
                last_total_jiffies: total_jiffies,
            }),
    {
        CpuSampler { pid, last_proc_jiffies: proc_jiffies, last_total_jiffies: total_jiffies }
    }

    /// How much time passed since the last sample, of the process and in all; nothing where no
    /// time passed. From then on times count from this sample.
    pub fn sample(&mut self, proc_jiffies: u64, total_jiffies: u64) -> (r: Option<(u64, u64)>)
        ensures
            *final(self) == (CpuSampler {
                pid: old(self).pid,
                last_proc_jiffies: proc_jiffies,
                last_total_jiffies: total_jiffies,
            }),
            match r {
                Some((d_proc, d_total)) => d_total == total_jiffies - old(self).last_total_jiffies
                    && d_total > 0 && d_proc == if proc_jiffies >= old(self).last_proc_jiffies {
                    proc_jiffies - old(self).last_proc_jiffies
                } else {
                    0
                },
                None => total_jiffies <= old(self).last_total_jiffies,
            },
            r is Some <==> old(self).last_total_jiffies < total_jiffies,
            r matches Some((d_proc, d_total)) ==> old(self).last_total_jiffies + d_total
                == total_jiffies && (old(self).last_proc_jiffies <= proc_jiffies ==> old(
                self).last_proc_jiffies + d_proc == proc_jiffies),
    {
        let d_proc = proc_jiffies.saturating_sub(self.last_proc_jiffies);
        let d_total = total_jiffies.saturating_sub(self.last_total_jiffies);
        self.last_proc_jiffies = proc_jiffies;
        self.last_total_jiffies = total_jiffies;
        if d_total == 0 {
            None
        } else {
            Some((d_proc, d_total))
        }
    }
}

/// Where the times of a process are.
pub fn stat_path(pid: u32) -> (r: String)
    ensures
        r@ == "/proc/"@ + decimal(pid as nat) + "/stat"@,
{
    let mut r = "/proc/".to_string();
    push_decimal(&mut r, pid as u64);
    r.append("/stat");
    r
}

/// The last position of a closing bracket.
pub open spec fn last_bracket(s: Seq<char>) -> Option<int>
    decreases s.len(),
{
    if s.len() == 0 {
        None
    } else if s.last() == ')' {
        Some(s.len() - 1)
    } else {
        last_bracket(s.drop_last())
    }
}

/// The fields of a process's times: what follows the last closing bracket and one more
/// character.
pub open spec fn stat_fields(s: Seq<char>) -> Seq<Seq<char>> {
    match last_bracket(s) {
        Some(k) => tokens(s.skip(k + 2)),
        None => Seq::empty(),
    }
}

/// What reading the times of a process comes to.
pub open spec fn stat_result(s: Seq<char>, path: Seq<char>) -> Result<nat, Seq<char>> {
    let fields = stat_fields(s);
    if last_bracket(s) is None {
        Err("bad stat format: "@ + path)
    } else if fields.len() < 15 {
        Err("stat fields too short: "@ + path)
    } else {
        match read_number(fields[11], u64::MAX as nat) {
            Err(e) => Err("parse utime in "@ + path + ": "@ + e.text()),
            Ok(utime) => match read_number(fields[12], u64::MAX as nat) {
                Err(e) => Err("parse stime in "@ + path + ": "@ + e.text()),
                Ok(stime) => Ok(utime + stime),
            },
        }
    }
}

/// Whether the times of a process can be read or refused: a last closing bracket is followed by
/// one ASCII character, and the two times add up within 64 bits.
pub open spec fn stat_is_regular(s: Seq<char>) -> bool {
    &&& last_bracket(s) matches Some(k) ==> k + 1 < s.len() && (s[k + 1] as int) < 0x80
    &&& stat_result(s, Seq::empty()) matches Ok(sum) ==> sum <= u64::MAX
}

/// Finds the last closing bracket.
fn find_last_bracket(s: &Vec<char>) -> (r: Option<usize>)
    ensures
        match r {
            Some(k) => last_bracket(s@) == Some(k as int) && k < s.len(),
            None => last_bracket(s@) is None,
        },
{
    let mut n: usize = s.len();
    assert(s@.take(n as int) =~= s@);
    while n > 0
        invariant
            n <= s.len(),
            last_bracket(s@) == last_bracket(s@.take(n as int)),
        decreases n,
    {
        assert(s@.take(n as int).last() == s@[n - 1]);
        assert(s@.take(n as int).drop_last() =~= s@.take(n - 1));
        if s[n - 1] == ')' {
            return Some(n - 1);
        }
        n = n - 1;
    }
    None
}

/// Copies what follows a position.
fn tail(s: &Vec<char>, from: usize) -> (r: Vec<char>)
    requires
        from <= s@.len(),
    ensures
        r@ == s@.skip(from as int),
{
    let mut r: Vec<char> = Vec::new();
    let mut i: usize = from;
    while i < s.len()
        invariant
            from <= i <= s.len(),
            r@ == s@.subrange(from as int, i as int),
        decreases s.len() - i,
    {
        r.push(s[i]);
        i = i + 1;
        assert(r@ =~= s@.subrange(from as int, i as int));
    }
    assert(r@ =~= s@.skip(from as int));
    r
}

/// A message about a path.
fn about(lead: &str, path: &str) -> (r: String)
    ensures
        r@ == lead@ + path@,
{
    let mut r = lead.to_string();
    r.append(path);
    r
}

/// A message about a path, with a reason.
fn about_number(lead: &str, path: &str, e: &NumberError) -> (r: String)
    ensures
        r@ == lead@ + path@ + ": "@ + e.text(),
{
    let mut r = lead.to_string();
    r.append(path);
    r.append(": ");
    r.append(e.message().as_str());
    r
}

/// Reads the user and system time of a process.
pub fn parse_proc_jiffies(content: &str, path: &str) -> (r: Result<u64, String>)
    requires
        stat_is_regular(content@),
    ensures
        match r {
            Ok(sum) => stat_result(content@, path@) == Ok::<nat, Seq<char>>(sum as nat),
            Err(e) => stat_result(content@, path@) == Err::<nat, Seq<char>>(e@),
        },
{
    let s = chars_of(content);
    match find_last_bracket(&s) {
        None => Err(about("bad stat format: ", path)),
        Some(k) => {
            assert(k + 1 < s.len());
            let after = tail(&s, k + 2);
            let fields = tokens_of(&after);
            let ghost f = tokens(after@);
            assert(char_views(fields@).len() == fields@.len());
            if fields.len() < 15 {
                return Err(about("stat fields too short: ", path));
            }
            assert(f[11] == fields@[11]@);
            assert(f[12] == fields@[12]@);
            match parse_number(&fields[11], u64::MAX) {
                Err(e) => Err(about_number("parse utime in ", path, &e)),
                Ok(utime) => match parse_number(&fields[12], u64::MAX) {
                    Err(e) => Err(about_number("parse stime in ", path, &e)),
                    Ok(stime) => {
                        assert(stat_result(content@, Seq::empty()) == Ok::<nat, Seq<char>>(
                            (utime + stime) as nat,
                        ));
                        Ok(utime + stime)
                    },
                },
            }
        },
    }
}

/// Whether the times of a process can be read or refused.
pub fn proc_stat_is_regular(content: &str) -> (b: bool)
    ensures
        b == stat_is_regular(content@),
{
    let s = chars_of(content);
    match find_last_bracket(&s) {
        None => true,
        Some(k) => {
            if k + 1 >= s.len() || !is_ascii_char(s[k + 1]) {
                return false;
            }
            let after = tail(&s, k + 2);
            let fields = tokens_of(&after);
            let ghost f = tokens(after@);
            assert(char_views(fields@).len() == fields@.len());
            if fields.len() < 15 {
                return true;
            }
            assert(f[11] == fields@[11]@);
            assert(f[12] == fields@[12]@);
            match parse_number(&fields[11], u64::MAX) {
                Err(_) => true,
                Ok(utime) => match parse_number(&fields[12], u64::MAX) {
                    Err(_) => true,
                    Ok(stime) => {
                        assert(stat_result(content@, Seq::empty()) == Ok::<nat, Seq<char>>(
                            (utime + stime) as nat,
                        ));
                        utime <= u64::MAX - stime
                    },
                },
            }
        },
    }
}

/// Whether a character is an ASCII character.
fn is_ascii_char(c: char) -> (b: bool)
    ensures
        b == ((c as int) < 0x80),
{
    (c as u32) < 0x80
}

/// The first line of a text.
pub open spec fn first_line(s: Seq<char>) -> Seq<char>
    decreases s.len(),
{
    if s.len() == 0 || s[0] == '\n' {
        Seq::empty()
    } else {
        seq![s[0]] + first_line(s.skip(1))
    }
}

/// The sum of the first `k` fields after the tag, which stays at the largest number where it
/// would pass it; or why one cannot be read.
pub open spec fn field_sum(fields: Seq<Seq<char>>, k: int) -> Result<nat, NumberError>
    decreases k,
{
    if k <= 1 {
        Ok(0)
    } else {
        match field_sum(fields, k - 1) {
            Err(e) => Err(e),
            Ok(sum) => match read_number(fields[k - 1], u64::MAX as nat) {
                Err(e) => Err(e),
                Ok(v) => Ok(
                    if sum + v <= u64::MAX {
                        sum + v
                    } else {
                        u64::MAX as nat
                    },
                ),
            },
        }
    }
}

/// What reading the machine's times comes to.
pub open spec fn total_result(s: Seq<char>) -> Result<nat, Seq<char>> {
    let fields = tokens(first_line(s));
    if s.len() == 0 {
        Err("missing cpu line in /proc/stat"@)
    } else if fields.len() == 0 || fields[0] != "cpu"@ {
        Err("invalid /proc/stat cpu line"@)
    } else {
        match field_sum(fields, fields.len() as int) {
            Ok(sum) => Ok(sum),
            Err(e) => Err("parse /proc/stat: "@ + e.text()),
        }
    }
}

/// Copies the first line of a text.
fn take_first_line(s: &Vec<char>) -> (r: Vec<char>)
    ensures
        r@ == first_line(s@),
{
    let mut r: Vec<char> = Vec::new();
    let mut i: usize = 0;
    proof {
        assert(s@.skip(0) =~= s@);
        assert(r@ + first_line(s@) =~= first_line(s@));
    }
    while i < s.len()
        invariant
            i <= s.len(),
            r@ + first_line(s@.skip(i as int)) == first_line(s@),
        decreases s.len() - i,
    {
        let ghost rest = s@.skip(i as int);
        let c = s[i];
        assert(rest[0] == c);
        if c == '\n' {
            assert(r@ + first_line(rest) =~= r@);
            return r;
        }
        let ghost before = r@;
        r.push(c);
        i = i + 1;
        proof {
            assert(rest.skip(1) =~= s@.skip(i as int));
            assert(r@ + first_line(s@.skip(i as int)) =~= before + (seq![c] + first_line(
                rest.skip(1),
            )));
        }
    }
    assert(r@ + first_line(s@.skip(i as int)) =~= r@);
    r
}

/// Whether a list of characters is the tag of the machine's times.
fn is_cpu_tag(s: &Vec<char>) -> (b: bool)
    ensures
        b == (s@ == "cpu"@),
{
    proof {
        reveal_strlit("cpu");
    }
    let b = s.len() == 3 && s[0] == 'c' && s[1] == 'p' && s[2] == 'u';
    if b {
        assert(s@ =~= "cpu"@);
    }
    b
}

/// Reads the time of the machine: the sum of all fields of the first line.
pub fn parse_total_jiffies(content: &str) -> (r: Result<u64, String>)
    ensures
        match r {
            Ok(sum) => total_result(content@) == Ok::<nat, Seq<char>>(sum as nat),
            Err(e) => total_result(content@) == Err::<nat, Seq<char>>(e@),
        },
{
    let s = chars_of(content);
    if s.len() == 0 {
        return Err("missing cpu line in /proc/stat".to_string());
    }
    let line = take_first_line(&s);
    let fields = tokens_of(&line);
    let ghost f = tokens(line@);
    assert(char_views(fields@).len() == fields@.len());
    if fields.len() == 0 {
        return Err("invalid /proc/stat cpu line".to_string());
    }
    assert(f[0] == fields@[0]@);
    if !is_cpu_tag(&fields[0]) {
        return Err("invalid /proc/stat cpu line".to_string());
    }
    let mut sum: u64 = 0;
    let mut k: usize = 1;
    while k < fields.len()
        invariant
            1 <= k <= fields.len(),
            f == char_views(fields@),
            f == tokens(first_line(content@)),
            content@.len() > 0,
            f[0] == "cpu"@,
            field_sum(f, k as int) == Ok::<nat, NumberError>(sum as nat),
        decreases fields.len() - k,
    {
        assert(f[k as int] == fields@[k as int]@);
        match parse_number(&fields[k], u64::MAX) {
            Ok(v) => {
                sum = sum.saturating_add(v);
            },
            Err(e) => {
                proof {
                    lemma_field_sum_fails(f, k + 1, e);
                }
                let mut message = "parse /proc/stat: ".to_string();
                message.append(e.message().as_str());
                return Err(message);
            },
        }
        k = k + 1;
    }
    Ok(sum)
}

/// A field that cannot be read decides the whole sum.
proof fn lemma_field_sum_fails(fields: Seq<Seq<char>>, k: int, e: NumberError)
    requires
        k <= fields.len(),
        field_sum(fields, k) == Err::<nat, NumberError>(e),
    ensures
        field_sum(fields, fields.len() as int) == Err::<nat, NumberError>(e),
    decreases fields.len() - k,
{
    if k < fields.len() {
        lemma_field_sum_fails(fields, k + 1, e);
    }
}

/// Measured samples are those that bear the name of the measuring phase, in order.
pub proof fn lemma_measured_by_phase(rows: Seq<RowView>)
    ensures
        measured(rows) == rows.filter(|r: RowView| r.phase == "measure"@),
{
    assert((|r: RowView| is_measured(r)) =~= (|r: RowView| r.phase == "measure"@));
}

/// What is said of a sample is what it holds; samples are said one by one.
pub proof fn lemma_sample_says_what_it_holds(r: &SampleRow, v: Seq<SampleRow>)
    ensures
        r@.ts_ms == r.ts_ms,
        r@.phase == r.phase@,
        r@.any_full == r.any_full,
        r@.any_near_full == r.any_near_full,
        r@.peak_sensor_utilization == r.peak_sensor_utilization,
        r@.total_frames == r.total_frames,
        r@.latest_window_end == r.latest_window_end,
        r@.pipeline_latency_ms == r.pipeline_latency_ms,
        r@.cpu_pct == r.cpu_pct,
        row_views(v).len() == v.len(),
        forall|k: int| 0 <= k < v.len() ==> #[trigger] row_views(v)[k] == v[k]@,
{
}

/// Sampling takes the time of all three phases, and each phase has its name.
pub proof fn lemma_phases_have_names(cfg: SamplingConfig)
    ensures
        cfg.total_secs() == cfg.warmup_secs + cfg.measure_secs + cfg.cooldown_secs,
        Phase::Warmup.text() == "warmup"@,
        Phase::Measure.text() == "measure"@,
        Phase::Cooldown.text() == "cooldown"@,
{
}

/// The line of a sample has its nine values in the order of the first line, with commas between
/// them.
pub proof fn lemma_csv_line(r: RowView, utilization: Seq<char>, cpu: Seq<char>)
    ensures
        csv_text(r, utilization, cpu) == decimal(r.ts_ms as nat) + ","@ + r.phase + ","@ + (
        if r.any_full {
            "true"@
        } else {
            "false"@
        }) + ","@ + (if r.any_near_full {
            "true"@
        } else {
            "false"@
        }) + ","@ + utilization + ","@ + decimal(r.total_frames as nat) + ","@ + decimal(
            r.latest_window_end as nat,
        ) + ","@ + decimal(r.pipeline_latency_ms as nat) + ","@ + cpu,
{
}

/// Successes, failures and latencies are those of the requests: as many successes as requests that
/// succeeded, and the latencies of exactly these, in order.
pub proof fn lemma_requests_are_counted_by_outcome(requests: Seq<(bool, u64)>)
    ensures
        after_requests(requests).0 == requests.filter(|q: (bool, u64)| q.0).len(),
        after_requests(requests).1 == requests.filter(|q: (bool, u64)| !q.0).len(),
        after_requests(requests).2 == requests.filter(|q: (bool, u64)| q.0).map_values(
            |q: (bool, u64)| q.1,
        ),
    decreases requests.len(),
{
    reveal(Seq::filter);
    let ok = |q: (bool, u64)| q.0;
    let latency = |q: (bool, u64)| q.1;
    if requests.len() > 0 {
        let init = requests.drop_last();
        lemma_requests_are_counted_by_outcome(init);
        if requests.last().0 {
            assert(init.filter(ok).push(requests.last()).map_values(latency) =~= init.filter(
                ok,
            ).map_values(latency).push(requests.last().1));
        }
    } else {
        assert(requests.filter(ok).map_values(latency) =~= Seq::empty());
    }
}

/// The last closing bracket is one after which there is none.
pub proof fn lemma_last_bracket(s: Seq<char>)
    ensures
        last_bracket(s) matches Some(k) ==> 0 <= k < s.len() && s[k] == ')' && forall|j: int|
            k < j < s.len() ==> #[trigger] s[j] != ')',
        last_bracket(s) is None ==> forall|j: int| 0 <= j < s.len() ==> #[trigger] s[j] != ')',
    decreases s.len(),
{
    if s.len() > 0 {
        let t = s.drop_last();
        lemma_last_bracket(t);
        assert forall|j: int| 0 <= j < t.len() implies #[trigger] s[j] == t[j] by {}
        assert(s[s.len() - 1] == s.last());
    }
}

/// The times of a process are the twelfth and thirteenth field after its last closing bracket, added
/// up; where there is no bracket, or a field is missing or no number, the message says which.
pub proof fn lemma_process_times(s: Seq<char>, path: Seq<char>)
    ensures
        last_bracket(s) is None ==> stat_result(s, path) == Err::<nat, Seq<char>>(
            "bad stat format: "@ + path,
        ),
        last_bracket(s) matches Some(k) ==> {
            let f = tokens(s.skip(k + 2));
            &&& f.len() < 15 ==> stat_result(s, path) == Err::<nat, Seq<char>>(
                "stat fields too short: "@ + path,
            )
            &&& f.len() >= 15 ==> match read_number(f[11], 0xffff_ffff_ffff_ffff) {
                Err(e) => stat_result(s, path) == Err::<nat, Seq<char>>(
                    "parse utime in "@ + path + ": "@ + e.text(),
                ),
                Ok(utime) => match read_number(f[12], 0xffff_ffff_ffff_ffff) {
                    Err(e) => stat_result(s, path) == Err::<nat, Seq<char>>(
                        "parse stime in "@ + path + ": "@ + e.text(),
                    ),
                    Ok(stime) => stat_result(s, path) == Ok::<nat, Seq<char>>(utime + stime),
                },
            }
        },
{
}

/// The first line of a text is all before its first line feed, and the whole text where it has
/// none.
pub proof fn lemma_first_line(s: Seq<char>)
    ensures
        first_line(s).len() <= s.len(),
        first_line(s) == s.take(first_line(s).len() as int),
        forall|i: int| 0 <= i < first_line(s).len() ==> #[trigger] s[i] != '\n',
        first_line(s).len() < s.len() ==> s[first_line(s).len() as int] == '\n',
    decreases s.len(),
{
    if s.len() > 0 && s[0] != '\n' {
        let t = s.skip(1);
        lemma_first_line(t);
        let n = first_line(s).len() as int;
        assert forall|i: int| 0 <= i < n implies #[trigger] s[i] != '\n' by {
            if i > 0 {
                assert(s[i] == t[i - 1]);
            }
        }
        assert(first_line(s) =~= s.take(n)) by {
            assert forall|i: int| 0 <= i < n implies first_line(s)[i] == s[i] by {
                if i > 0 {
                    assert(first_line(s)[i] == first_line(t)[i - 1]);
                    assert(t.take(first_line(t).len() as int)[i - 1] == t[i - 1]);
                }
            }
        }
        if n < s.len() {
            assert(s[n] == t[n - 1]);
        }
    } else {
        assert(s.take(0) =~= Seq::empty());
    }
}

/// The time of the machine is the sum of the fields after the tag `cpu` of the first line, each of
/// which must be a number; a sum past the largest number stays there.
pub proof fn lemma_machine_time(s: Seq<char>, fields: Seq<Seq<char>>, k: int)
    requires
        1 <= k < fields.len(),
    ensures
        field_sum(fields, 1) == Ok::<nat, NumberError>(0),
        field_sum(fields, k) matches Ok(sum) ==> (read_number(
            fields[k],
            0xffff_ffff_ffff_ffff,
        ) matches Ok(v) ==> field_sum(fields, k + 1) == Ok::<nat, NumberError>(
            if sum + v <= 0xffff_ffff_ffff_ffff {
                sum + v
            } else {
                0xffff_ffff_ffff_ffff
            },
        )),
        field_sum(fields, k) is Ok ==> (read_number(
            fields[k],
            0xffff_ffff_ffff_ffff,
        ) matches Err(e) ==> field_sum(fields, k + 1) == Err::<nat, NumberError>(e)),
        field_sum(fields, k) is Err ==> field_sum(fields, k + 1) == field_sum(fields, k),
        s.len() == 0 ==> total_result(s) == Err::<nat, Seq<char>>(
            "missing cpu line in /proc/stat"@,
        ),
        s.len() > 0 && (tokens(first_line(s)).len() == 0 || tokens(first_line(s))[0] != "cpu"@)
            ==> total_result(s) == Err::<nat, Seq<char>>("invalid /proc/stat cpu line"@),
        s.len() > 0 && tokens(first_line(s)).len() > 0 && tokens(first_line(s))[0] == "cpu"@
            ==> match field_sum(tokens(first_line(s)), tokens(first_line(s)).len() as int) {
            Ok(sum) => total_result(s) == Ok::<nat, Seq<char>>(sum),
            Err(e) => total_result(s) == Err::<nat, Seq<char>>("parse /proc/stat: "@ + e.text()),
        },
{
}

/// The times of a process can be read or refused unless its last closing bracket is followed by
/// nothing, or by a character that is not ASCII, or its times add up past the largest number.
pub proof fn lemma_regular_times(s: Seq<char>)
    ensures
        last_bracket(s) is None ==> stat_is_regular(s),
        last_bracket(s) matches Some(k) ==> {
            let f = tokens(s.skip(k + 2));
            let first = read_number(f[11], 0xffff_ffff_ffff_ffff);
            let second = read_number(f[12], 0xffff_ffff_ffff_ffff);
            &&& k + 1 >= s.len() || s[k + 1] as int >= 0x80 ==> !stat_is_regular(s)
            &&& k + 1 < s.len() && (s[k + 1] as int) < 0x80 ==> (stat_is_regular(s) <==> f.len() < 15
                || first is Err || second is Err || first->Ok_0 + second->Ok_0
                <= 0xffff_ffff_ffff_ffff)
        },
{
}

} // verus!
