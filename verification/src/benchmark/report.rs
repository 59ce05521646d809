//! What a scenario comes to: figures, checks against its limits, and a digest.
use vstd::prelude::*;
use vstd::string::StringExecFns;
use crate::order::{
    arrangement, is_arrangement, lemma_arrangement_covers, lemma_arrangement_exists, picked,
    positions, sort_indices, strict_total, IndexOrder,
};
use crate::text::{decimal, decimal_text, push_decimal};
use super::ScenarioConfig;
use super::collector::{
    is_measured, measured, row_views, HttpLoadMetrics, RowView, SamplingResult,
};

verus! {

/// The order of positions by value; equal values keep their places.
pub open spec fn value_rel(v: Seq<u64>) -> spec_fn(int, int) -> bool {
    |i: int, j: int| v[i] < v[j] || (v[i] == v[j] && i < j)
}

/// The values in ascending order.
pub open spec fn sorted_values(v: Seq<u64>) -> Seq<u64> {
    picked(v, arrangement(v.len(), value_rel(v)))
}

/// Sorting keeps all values, and puts none before a smaller one.
pub proof fn lemma_sorted_values(v: Seq<u64>)
    ensures
        sorted_values(v).len() == v.len(),
        forall|a: int, b: int|
            0 <= a <= b < v.len() ==> #[trigger] sorted_values(v)[a] <= #[trigger] sorted_values(
                v,
            )[b],
        forall|x: u64| #[trigger] sorted_values(v).contains(x) <==> v.contains(x),
{
    let rel = value_rel(v);
    assert(strict_total(v.len(), rel));
    lemma_arrangement_exists(v.len(), rel);
    let at = arrangement(v.len(), rel);
    let s = sorted_values(v);
    assert forall|a: int, b: int| 0 <= a <= b < v.len() implies #[trigger] s[a]
        <= #[trigger] s[b] by {
        if a < b {
            assert(rel(at[a], at[b]));
        }
    }
    assert forall|x: u64| #[trigger] s.contains(x) <==> v.contains(x) by {
        if s.contains(x) {
            let k = choose|k: int| 0 <= k < s.len() && s[k] == x;
            assert(v[at[k]] == x);
        }
        if v.contains(x) {
            let i = choose|i: int| 0 <= i < v.len() && v[i] == x;
            lemma_arrangement_covers(v.len(), rel, at, i);
            let k = choose|k: int| 0 <= k < at.len() && at[k] == i;
            assert(s[k] == x);
        }
    }
}

/// The positions of values, by value.
struct ByValue<'a> {
    values: &'a Vec<u64>,
}

impl<'a> IndexOrder for ByValue<'a> {
    closed spec fn size(&self) -> nat {
        self.values@.len()
    }

    closed spec fn rel(&self) -> spec_fn(int, int) -> bool {
        value_rel(self.values@)
    }

    proof fn rel_is_strict_total(&self) {
    }

    fn count(&self) -> (n: usize) {
        self.values.len()
    }

    fn precedes(&self, i: usize, j: usize) -> (b: bool) {
        self.values[i] < self.values[j] || (self.values[i] == self.values[j] && i < j)
    }
}

/// The value at a rank among the values in ascending order, and at the last one for ranks past
/// it; nothing where there are no values.
pub open spec fn value_at_rank(v: Seq<u64>, rank: usize) -> Option<u64> {
    if v.len() == 0 {
        None
    } else if rank < v.len() {
        Some(sorted_values(v)[rank as int])
    } else {
        Some(sorted_values(v)[v.len() - 1])
    }
}

/// Finds the value at a rank.
pub fn percentile_u64(v: &Vec<u64>, rank: usize) -> (r: Option<u64>)
    ensures
        r == value_at_rank(v@, rank),
{
    if v.len() == 0 {
        return None;
    }
    let order = ByValue { values: v };
    let at = sort_indices(&order);
    let k: usize = if rank < v.len() {
        rank
    } else {
        v.len() - 1
    };
    assert(positions(at@)[k as int] == at@[k as int]);
    assert(is_arrangement(v@.len(), value_rel(v@), positions(at@)));
    Some(v[at[k]])
}

/// The sum of values.
pub open spec fn sum_of(v: Seq<u64>) -> nat
    decreases v.len(),
{
    if v.len() == 0 {
        0
    } else {
        sum_of(v.drop_last()) + v.last() as nat
    }
}

/// How many samples saw a full queue.
pub open spec fn full_count(rows: Seq<RowView>) -> nat
    decreases rows.len(),
{
    if rows.len() == 0 {
        0
    } else {
        full_count(rows.drop_last()) + if rows.last().any_full {
            1nat
        } else {
            0
        }
    }
}

/// How many samples saw a queue that was near full.
pub open spec fn near_full_count(rows: Seq<RowView>) -> nat
    decreases rows.len(),
{
    if rows.len() == 0 {
        0
    } else {
        near_full_count(rows.drop_last()) + if rows.last().any_near_full {
            1nat
        } else {
            0
        }
    }
}

/// How far frames lagged behind, per sample.
pub open spec fn latencies(rows: Seq<RowView>) -> Seq<u64> {
    rows.map_values(|r: RowView| r.pipeline_latency_ms)
}

/// The frames that were added between the first and the last sample, and the milliseconds
/// between them (at least one); nothing without samples.
pub open spec fn frame_rate(rows: Seq<RowView>) -> Option<(usize, u64)> {
    if rows.len() == 0 {
        None
    } else {
        let first = rows[0];
        let last = rows.last();
        Some(
            (
                if last.total_frames >= first.total_frames {
                    (last.total_frames - first.total_frames) as usize
                } else {
                    0
                },
                if last.ts_ms > first.ts_ms {
                    (last.ts_ms - first.ts_ms) as u64
                } else {
                    1
                },
            ),
        )
    }
}

/// The ranks at which percentiles are read, for the number of values that there are.
#[derive(Clone, Copy, Debug, PartialEq, Eq, Structural)]
pub struct SummaryRanks {
    pub pipeline_p95: usize,
    pub http_p50: usize,
    pub http_p95: usize,
    pub http_p99: usize,
}

/// The figures of a scenario. Ratios and averages are given as what is to be divided.
#[derive(Clone, Debug)]
pub struct ScenarioSummary {
    pub scenario_id: String,
    pub measured_samples: usize,
    pub overflow_events: usize,
    pub near_full_samples: usize,
    /// Frames, and the milliseconds they took.
    pub frame_rate: Option<(usize, u64)>,
    pub pipeline_latency_sum_ms: u64,
    pub pipeline_latency_p95_ms: Option<u64>,
    pub http_success: u64,
    pub http_fail: u64,
    pub http_total: u64,
    /// The seconds over which successful requests are spread.
    pub http_secs: u64,
    pub http_latency_p50_us: Option<u64>,
    pub http_latency_p95_us: Option<u64>,
    pub http_latency_p99_us: Option<u64>,
}

/// Sums up the measured samples and the HTTP load of a scenario.
pub fn build_summary(
    scenario: &ScenarioConfig,
    sampling: &SamplingResult,
    http: &HttpLoadMetrics,
    ranks: SummaryRanks,
) -> (r: ScenarioSummary)
    requires
        sum_of(latencies(measured(row_views(sampling.samples@)))) <= u64::MAX,
        http.success + http.fail <= u64::MAX,
    ensures
        ({
            let m = measured(row_views(sampling.samples@));
            &&& r.measured_samples == m.len()
            &&& r.overflow_events == full_count(m)
            &&& r.near_full_samples == near_full_count(m)
            &&& r.frame_rate == frame_rate(m)
            &&& r.pipeline_latency_sum_ms == sum_of(latencies(m))
            &&& r.pipeline_latency_p95_ms == value_at_rank(latencies(m), ranks.pipeline_p95)
        }),
        r.scenario_id@ == scenario.id@,
        r.http_secs == scenario.measure_secs,
        r.http_success == http.success,
        r.http_fail == http.fail,
        r.http_total == http.success + http.fail,
        r.http_latency_p50_us == value_at_rank(http.latencies_us@, ranks.http_p50),
        r.http_latency_p95_us == value_at_rank(http.latencies_us@, ranks.http_p95),
        r.http_latency_p99_us == value_at_rank(http.latencies_us@, ranks.http_p99),
        ({
            let m = row_views(sampling.samples@).filter(|s: RowView| s.phase == "measure"@);
            &&& r.measured_samples == m.len()
            &&& r.overflow_events == m.filter(|s: RowView| s.any_full).len()
            &&& r.near_full_samples == m.filter(|s: RowView| s.any_near_full).len()
        }),
{
    let samples = &sampling.samples;
    let ghost rows = row_views(samples@);
    let ghost all = measured(rows);
    let name = "measure".to_string();
    let mut measured_samples: usize = 0;
    let mut overflow_events: usize = 0;
    let mut near_full_samples: usize = 0;
    let mut first: Option<usize> = None;
    let mut last: usize = 0;
    let mut lags: Vec<u64> = Vec::new();
    let mut lag_sum: u64 = 0;
    let mut i: usize = 0;
    proof {
        reveal(Seq::filter);
        assert(rows.take(0) =~= Seq::empty());
        assert(latencies(measured(rows.take(0))) =~= lags@);
    }
    while i < samples.len()
        invariant
            i <= samples.len(),
            rows == row_views(samples@),
            all == measured(rows),
            name@ == "measure"@,
            sum_of(latencies(all)) <= u64::MAX,
            measured_samples <= i,
            measured_samples == measured(rows.take(i as int)).len(),
            overflow_events == full_count(measured(rows.take(i as int))),
            overflow_events <= i,
            near_full_samples == near_full_count(measured(rows.take(i as int))),
            near_full_samples <= i,
            lags@ == latencies(measured(rows.take(i as int))),
            lag_sum == sum_of(lags@),
            match first {
                Some(k) => k < i && last < i && measured(rows.take(i as int)).len() > 0
                    && measured(rows.take(i as int))[0] == samples@[k as int]@ && measured(
                    rows.take(i as int),
                ).last() == samples@[last as int]@,
                None => measured(rows.take(i as int)).len() == 0,
            },
        decreases samples.len() - i,
    {
        let row = &samples[i];
        let ghost m = measured(rows.take(i as int));
        proof {
            reveal(Seq::filter);
            assert(rows.take(i + 1).drop_last() =~= rows.take(i as int));
            assert(rows.take(i + 1).last() == row@);
            lemma_measured_sum_grows(rows, i + 1);
        }
        if row.phase == name {
            proof {
                let n = measured(rows.take(i + 1));
                assert(n == m.push(row@));
                assert(n.drop_last() =~= m);
                assert(latencies(n) =~= latencies(m).push(row.pipeline_latency_ms));
                assert(latencies(n).drop_last() =~= latencies(m));
            }
            measured_samples = measured_samples + 1;
            if row.any_full {
                overflow_events = overflow_events + 1;
            }
            if row.any_near_full {
                near_full_samples = near_full_samples + 1;
            }
            if first.is_none() {
                first = Some(i);
            }
            last = i;
            lags.push(row.pipeline_latency_ms);
            lag_sum = lag_sum + row.pipeline_latency_ms;
        }
        i = i + 1;
    }
    assert(rows.take(i as int) =~= rows);
    proof {
        crate::benchmark::collector::lemma_measured_by_phase(rows);
        lemma_counts_are_of_marked_samples(all);
    }
    let rate = match first {
        None => None,
        Some(k) => {
            let frames = samples[last].total_frames.saturating_sub(samples[k].total_frames);
            let span = samples[last].ts_ms.saturating_sub(samples[k].ts_ms);
            Some(
                (
                    frames,
                    if span > 1 {
                        span
                    } else {
                        1
                    },
                ),
            )
        },
    };
    ScenarioSummary {
        scenario_id: scenario.id.clone(),
        measured_samples,
        overflow_events,
        near_full_samples,
        frame_rate: rate,
        pipeline_latency_sum_ms: lag_sum,
        pipeline_latency_p95_ms: percentile_u64(&lags, ranks.pipeline_p95),
        http_success: http.success,
        http_fail: http.fail,
        http_total: http.success + http.fail,
        http_secs: scenario.measure_secs,
        http_latency_p50_us: percentile_u64(&http.latencies_us, ranks.http_p50),
        http_latency_p95_us: percentile_u64(&http.latencies_us, ranks.http_p95),
        http_latency_p99_us: percentile_u64(&http.latencies_us, ranks.http_p99),
    }
}

/// The latencies of a prefix sum up to no more than all of them.
proof fn lemma_measured_sum_grows(rows: Seq<RowView>, k: int)
    requires
        0 <= k <= rows.len(),
    ensures
        sum_of(latencies(measured(rows.take(k)))) <= sum_of(latencies(measured(rows))),
    decreases rows.len() - k,
{
    if k == rows.len() {
        assert(rows.take(k) =~= rows);
    } else {
        lemma_measured_sum_grows(rows, k + 1);
        reveal(Seq::filter);
        let a = measured(rows.take(k));
        let b = measured(rows.take(k + 1));
        assert(rows.take(k + 1).drop_last() =~= rows.take(k));
        if is_measured(rows[k]) {
            assert(b == a.push(rows[k]));
            assert(latencies(b).drop_last() =~= latencies(a));
        }
    }
}

/// Whether the measured latencies sum up within 64 bits.
pub fn latencies_fit(sampling: &SamplingResult) -> (b: bool)
    ensures
        b == (sum_of(latencies(measured(row_views(sampling.samples@)))) <= u64::MAX),
{
    let samples = &sampling.samples;
    let ghost rows = row_views(samples@);
    let name = "measure".to_string();
    let mut sum: u64 = 0;
    let mut i: usize = 0;
    proof {
        reveal(Seq::filter);
        assert(rows.take(0) =~= Seq::empty());
    }
    while i < samples.len()
        invariant
            i <= samples.len(),
            samples == &sampling.samples,
            rows == row_views(samples@),
            name@ == "measure"@,
            sum == sum_of(latencies(measured(rows.take(i as int)))),
        decreases samples.len() - i,
    {
        let row = &samples[i];
        let ghost m = measured(rows.take(i as int));
        proof {
            reveal(Seq::filter);
            assert(rows.take(i + 1).drop_last() =~= rows.take(i as int));
            assert(rows.take(i + 1).last() == row@);
            lemma_measured_sum_grows(rows, i + 1);
        }
        if row.phase == name {
            proof {
                let n = measured(rows.take(i + 1));
                assert(n == m.push(row@));
                assert(latencies(n).drop_last() =~= latencies(m));
            }
            if row.pipeline_latency_ms > u64::MAX - sum {
                return false;
            }
            sum = sum + row.pipeline_latency_ms;
        }
        i = i + 1;
    }
    assert(rows.take(i as int) =~= rows);
    true
}

/// The outcome of one check.
#[derive(Clone, Debug)]
pub struct CheckResult {
    pub name: String,
    pub passed: bool,
    pub actual: String,
    pub target: String,
}

/// What the outcome of a check says.
pub struct CheckView {
    pub name: Seq<char>,
    pub passed: bool,
    pub actual: Seq<char>,
    pub target: Seq<char>,
}

impl View for CheckResult {
    type V = CheckView;

    open spec fn view(&self) -> CheckView {
        CheckView {
            name: self.name@,
            passed: self.passed,
            actual: self.actual@,
            target: self.target@,
        }
    }
}

/// What a list of checks says.
pub open spec fn check_views(v: Seq<CheckResult>) -> Seq<CheckView> {
    v.map_values(|c: CheckResult| c@)
}

/// A figure against its limit: whether it keeps it, and both as texts.
pub struct LimitCheck {
    pub within: bool,
    pub actual: String,
    pub limit: String,
}

/// The figures that have limits.
pub struct LimitChecks {
    pub near_full_ratio: LimitCheck,
    pub http_error_rate: LimitCheck,
    pub http_latency_p95_ms: LimitCheck,
    pub http_latency_p99_ms: LimitCheck,
    pub cpu_avg_pct: LimitCheck,
    pub cpu_peak_pct: LimitCheck,
}

/// The check of a figure against its limit.
pub open spec fn limit_check(name: Seq<char>, c: LimitCheck) -> CheckView {
    CheckView { name, passed: c.within, actual: c.actual@, target: "<= "@ + c.limit@ }
}

/// All checks of a scenario.
pub open spec fn checks_of(overflow_events: usize, limits: LimitChecks) -> Seq<CheckView> {
    seq![
        CheckView {
            name: "zero_data_loss_overflow"@,
            passed: overflow_events == 0,
            actual: decimal(overflow_events as nat),
            target: "0"@,
        },
        limit_check("near_full_ratio"@, limits.near_full_ratio),
        limit_check("http_error_rate"@, limits.http_error_rate),
        limit_check("http_latency_p95_ms"@, limits.http_latency_p95_ms),
        limit_check("http_latency_p99_ms"@, limits.http_latency_p99_ms),
        limit_check("cpu_avg_pct"@, limits.cpu_avg_pct),
        limit_check("cpu_peak_pct"@, limits.cpu_peak_pct),
    ]
}

/// Makes the check of a figure against its limit.
fn check_limit(name: &str, c: LimitCheck) -> (r: CheckResult)
    ensures
        r@ == limit_check(name@, c),
{
    let mut target = "<= ".to_string();
    target.append(c.limit.as_str());
    CheckResult { name: name.to_string(), passed: c.within, actual: c.actual, target }
}

/// Makes all checks of a scenario.
pub fn build_checks(summary: &ScenarioSummary, limits: LimitChecks) -> (r: Vec<CheckResult>)
    ensures
        check_views(r@) == checks_of(summary.overflow_events, limits),
{
    let overflow_events = summary.overflow_events;
    let mut r: Vec<CheckResult> = Vec::new();
    r.push(
        CheckResult {
            name: "zero_data_loss_overflow".to_string(),
            passed: overflow_events == 0,
            actual: decimal_text(overflow_events as u64),
            target: "0".to_string(),
        },
    );
    r.push(check_limit("near_full_ratio", limits.near_full_ratio));
    r.push(check_limit("http_error_rate", limits.http_error_rate));
    r.push(check_limit("http_latency_p95_ms", limits.http_latency_p95_ms));
    r.push(check_limit("http_latency_p99_ms", limits.http_latency_p99_ms));
    r.push(check_limit("cpu_avg_pct", limits.cpu_avg_pct));
    r.push(check_limit("cpu_peak_pct", limits.cpu_peak_pct));
    assert(check_views(r@) =~= checks_of(overflow_events, limits));
    r
}

/// How many checks passed.
pub open spec fn passed_count(checks: Seq<CheckView>) -> nat
    decreases checks.len(),
{
    if checks.len() == 0 {
        0
    } else {
        passed_count(checks.drop_last()) + if checks.last().passed {
            1nat
        } else {
            0
        }
    }
}

/// No more checks pass than there are; and as many pass only where all do.
pub proof fn lemma_passed_count(checks: Seq<CheckView>)
    ensures
        passed_count(checks) <= checks.len(),
        passed_count(checks) == checks.len() <==> forall|k: int|
            0 <= k < checks.len() ==> (#[trigger] checks[k]).passed,
    decreases checks.len(),
{
    if checks.len() > 0 {
        let init = checks.drop_last();
        lemma_passed_count(init);
        assert(checks[checks.len() - 1] == checks.last());
        assert forall|k: int| 0 <= k < init.len() implies #[trigger] init[k] == checks[k] by {}
        if passed_count(checks) == checks.len() {
            assert forall|k: int| 0 <= k < checks.len() implies (#[trigger] checks[k]).passed by {
                if k < init.len() {
                    assert(init[k].passed);
                }
            }
        }
        if forall|k: int| 0 <= k < checks.len() ==> (#[trigger] checks[k]).passed {
            assert forall|k: int| 0 <= k < init.len() implies (#[trigger] init[k]).passed by {
                assert(checks[k].passed);
            }
        }
    }
}

/// The figures of a digest that are not whole numbers, as texts.
pub struct DigestTexts {
    pub near_full_ratio: String,
    pub frame_tps: String,
    pub pipeline_latency_avg_ms: String,
    pub pipeline_latency_p95_ms: String,
    pub http_latency_p50_ms: String,
    pub http_latency_p95_ms: String,
    pub http_latency_p99_ms: String,
    pub cpu_avg_pct: String,
    pub cpu_peak_pct: String,
}

/// The line of one check.
pub open spec fn check_line(c: CheckView) -> Seq<char> {
    "- "@ + c.name + ": "@ + (if c.passed {
        "PASS"@
    } else {
        "FAIL"@
    }) + " (actual "@ + c.actual + ", target "@ + c.target + ")\n"@
}

/// The lines of all checks.
pub open spec fn check_lines(checks: Seq<CheckView>) -> Seq<char>
    decreases checks.len(),
{
    if checks.len() == 0 {
        Seq::empty()
    } else {
        check_lines(checks.drop_last()) + check_line(checks.last())
    }
}

/// The digest of a scenario, before its checks.
pub open spec fn digest_head(
    scenario_id: Seq<char>,
    checks: Seq<CheckView>,
    f: ScenarioSummary,
    t: DigestTexts,
) -> Seq<char> {
    "# Benchmark Digest: "@ + scenario_id + "\n\n- Checks passed: "@ + decimal(passed_count(checks))
        + "/"@ + decimal(checks.len()) + "\n- Overflow events: "@ + decimal(
        f.overflow_events as nat,
    ) + "\n- Near-full ratio: "@ + t.near_full_ratio@ + "\n- Frame throughput (tps): "@
        + t.frame_tps@ + "\n- Pipeline latency avg/p95 (ms): "@ + t.pipeline_latency_avg_ms@ + "/"@
        + t.pipeline_latency_p95_ms@ + "\n- HTTP success/fail: "@ + decimal(f.http_success as nat)
        + "/"@ + decimal(f.http_fail as nat) + "\n- HTTP latency p50/p95/p99 (ms): "@
        + t.http_latency_p50_ms@ + "/"@ + t.http_latency_p95_ms@ + "/"@ + t.http_latency_p99_ms@
        + "\n- CPU avg/peak (%): "@ + t.cpu_avg_pct@ + "/"@ + t.cpu_peak_pct@
        + "\n\n## Check Details\n"@
}

/// Counts the checks that passed.
fn count_passed(checks: &Vec<CheckResult>) -> (n: usize)
    ensures
        n == passed_count(check_views(checks@)),
{
    let ghost all = check_views(checks@);
    let mut n: usize = 0;
    let mut i: usize = 0;
    assert(all.take(0) =~= Seq::empty());
    while i < checks.len()
        invariant
            i <= checks.len(),
            all == check_views(checks@),
            n == passed_count(all.take(i as int)),
            n <= i,
        decreases checks.len() - i,
    {
        assert(all.take(i + 1).drop_last() =~= all.take(i as int));
        assert(all.take(i + 1).last() == checks@[i as int]@);
        if checks[i].passed {
            n = n + 1;
        }
        i = i + 1;
    }
    assert(all.take(i as int) =~= all);
    n
}

/// Adds the line of one check to a digest.
fn push_check_line(md: &mut String, c: &CheckResult)
    ensures
        final(md)@ == old(md)@ + check_line(c@),
{
    let ghost start = md@;
    md.append("- ");
    md.append(c.name.as_str());
    md.append(": ");
    if c.passed {
        md.append("PASS");
    } else {
        md.append("FAIL");
    }
    md.append(" (actual ");
    md.append(c.actual.as_str());
    md.append(", target ");
    md.append(c.target.as_str());
    md.append(")\n");
    assert(md@ =~= start + check_line(c@));
}

/// Writes the digest of a scenario.
pub fn write_markdown_digest(
    scenario_id: &str,
    checks: &Vec<CheckResult>,
    summary: &ScenarioSummary,
    t: &DigestTexts,
) -> (r: String)
    ensures
        r@ == digest_head(scenario_id@, check_views(checks@), *summary, *t) + check_lines(
            check_views(checks@),
        ),
{
    let mut md = "# Benchmark Digest: ".to_string();
    md.append(scenario_id);
    md.append("\n\n- Checks passed: ");
    push_decimal(&mut md, count_passed(checks) as u64);
    md.append("/");
    push_decimal(&mut md, checks.len() as u64);
    md.append("\n- Overflow events: ");
    push_decimal(&mut md, summary.overflow_events as u64);
    md.append("\n- Near-full ratio: ");
    md.append(t.near_full_ratio.as_str());
    md.append("\n- Frame throughput (tps): ");
    md.append(t.frame_tps.as_str());
    md.append("\n- Pipeline latency avg/p95 (ms): ");
    md.append(t.pipeline_latency_avg_ms.as_str());
    md.append("/");
    md.append(t.pipeline_latency_p95_ms.as_str());
    md.append("\n- HTTP success/fail: ");
    push_decimal(&mut md, summary.http_success);
    md.append("/");
    push_decimal(&mut md, summary.http_fail);
    md.append("\n- HTTP latency p50/p95/p99 (ms): ");
    md.append(t.http_latency_p50_ms.as_str());
    md.append("/");
    md.append(t.http_latency_p95_ms.as_str());
    md.append("/");
    md.append(t.http_latency_p99_ms.as_str());
    md.append("\n- CPU avg/peak (%): ");
    md.append(t.cpu_avg_pct.as_str());
    md.append("/");
    md.append(t.cpu_peak_pct.as_str());
    md.append("\n\n## Check Details\n");
    let ghost all = check_views(checks@);
    let ghost head = digest_head(scenario_id@, all, *summary, *t);
    proof {
        assert(all.len() == checks@.len());
        assert(md@ == head);
        assert(all.take(0) =~= Seq::empty());
        assert(head + check_lines(all.take(0)) =~= head);
    }
    let mut i: usize = 0;
    while i < checks.len()
        invariant
            i <= checks.len(),
            all == check_views(checks@),
            md@ == head + check_lines(all.take(i as int)),
        decreases checks.len() - i,
    {
        proof {
            assert(all.take(i + 1).drop_last() =~= all.take(i as int));
            assert(all.take(i + 1).last() == checks@[i as int]@);
        }
        let ghost before = check_lines(all.take(i as int));
        push_check_line(&mut md, &checks[i]);
        proof {
            assert(md@ =~= head + (before + check_line(checks@[i as int]@)));
        }
        i = i + 1;
    }
    assert(all.take(i as int) =~= all);
    md
}

/// A count of samples is the number of those with the mark, and of no others: full ones by their
/// mark for full, near full ones by their mark for near full.
pub proof fn lemma_counts_are_of_marked_samples(rows: Seq<RowView>)
    ensures
        full_count(rows) == rows.filter(|r: RowView| r.any_full).len(),
        near_full_count(rows) == rows.filter(|r: RowView| r.any_near_full).len(),
        full_count(rows) == 0 <==> forall|k: int|
            0 <= k < rows.len() ==> !(#[trigger] rows[k]).any_full,
        near_full_count(rows) == 0 <==> forall|k: int|
            0 <= k < rows.len() ==> !(#[trigger] rows[k]).any_near_full,
    decreases rows.len(),
{
    reveal(Seq::filter);
    if rows.len() > 0 {
        let init = rows.drop_last();
        lemma_counts_are_of_marked_samples(init);
        assert(rows[rows.len() - 1] == rows.last());
        assert forall|k: int| 0 <= k < init.len() implies #[trigger] init[k] == rows[k] by {}
        if full_count(rows) == 0 {
            assert forall|k: int| 0 <= k < rows.len() implies !(#[trigger] rows[k]).any_full by {
                if k < init.len() {
                    assert(!init[k].any_full);
                }
            }
        }
        if near_full_count(rows) == 0 {
            assert forall|k: int| 0 <= k < rows.len() implies !(
            #[trigger] rows[k]).any_near_full by {
                if k < init.len() {
                    assert(!init[k].any_near_full);
                }
            }
        }
        if forall|k: int| 0 <= k < rows.len() ==> !(#[trigger] rows[k]).any_full {
            assert forall|k: int| 0 <= k < init.len() implies !(#[trigger] init[k]).any_full by {
                assert(!rows[k].any_full);
            }
        }
        if forall|k: int| 0 <= k < rows.len() ==> !(#[trigger] rows[k]).any_near_full {
            assert forall|k: int| 0 <= k < init.len() implies !(
            #[trigger] init[k]).any_near_full by {
                assert(!rows[k].any_near_full);
            }
        }
    }
}

/// The counts of two lists of samples add up.
pub proof fn lemma_counts_add_up(a: Seq<RowView>, b: Seq<RowView>)
    ensures
        full_count(a + b) == full_count(a) + full_count(b),
        near_full_count(a + b) == near_full_count(a) + near_full_count(b),
    decreases b.len(),
{
    if b.len() == 0 {
        assert(a + b =~= a);
    } else {
        lemma_counts_add_up(a, b.drop_last());
        assert((a + b).drop_last() =~= a + b.drop_last());
    }
}

/// Sums of two lists add up, and the sum of one value is that value.
pub proof fn lemma_sums_add_up(a: Seq<u64>, b: Seq<u64>, x: u64)
    ensures
        sum_of(Seq::empty()) == 0,
        sum_of(seq![x]) == x,
        sum_of(a + b) == sum_of(a) + sum_of(b),
    decreases b.len(),
{
    assert(seq![x].drop_last() =~= Seq::empty());
    assert(sum_of(seq![x].drop_last()) == 0);
    if b.len() == 0 {
        assert(a + b =~= a);
    } else {
        lemma_sums_add_up(a, b.drop_last(), x);
        assert((a + b).drop_last() =~= a + b.drop_last());
    }
}

/// Each sample has its own latency.
pub proof fn lemma_latency_per_sample(rows: Seq<RowView>)
    ensures
        latencies(rows).len() == rows.len(),
        forall|k: int|
            0 <= k < rows.len() ==> #[trigger] latencies(rows)[k] == rows[k].pipeline_latency_ms,
{
}

/// The frame rate counts the frames and milliseconds from the first sample to the last: fewer
/// frames at the end count as none, and no time counts as one millisecond.
pub proof fn lemma_frame_rate_spans_all_samples(rows: Seq<RowView>)
    ensures
        frame_rate(rows) is None <==> rows.len() == 0,
        frame_rate(rows) matches Some((frames, ms)) ==> {
            let first = rows[0];
            let last = rows[rows.len() - 1];
            &&& last.total_frames >= first.total_frames ==> first.total_frames + frames
                == last.total_frames
            &&& last.total_frames < first.total_frames ==> frames == 0
            &&& last.ts_ms > first.ts_ms ==> first.ts_ms + ms == last.ts_ms
            &&& last.ts_ms <= first.ts_ms ==> ms == 1
        },
{
}

/// A list of different numbers, each of which is in another list, is no longer than that.
proof fn lemma_distinct_within(s: Seq<int>, t: Seq<int>)
    requires
        s.no_duplicates(),
        forall|k: int| 0 <= k < s.len() ==> t.contains(#[trigger] s[k]),
    ensures
        s.len() <= t.len(),
{
    s.unique_seq_to_set();
    assert(s.to_set().subset_of(t.to_set()));
    t.lemma_cardinality_of_set();
    vstd::seq_lib::seq_to_set_is_finite(t);
    vstd::set_lib::lemma_len_subset(s.to_set(), t.to_set());
}

/// The value at a rank is one of the values; no more values than the rank are smaller, and more
/// than the rank are not larger. A rank past the last counts as the last; without values there is
/// none.
pub proof fn lemma_value_at_rank(v: Seq<u64>, rank: usize)
    ensures
        value_at_rank(v, rank) is None <==> v.len() == 0,
        value_at_rank(v, rank) matches Some(x) ==> {
            let r: int = if rank < v.len() {
                rank as int
            } else {
                v.len() - 1
            };
            &&& v.contains(x)
            &&& v.filter(|y: u64| y < x).len() <= r
            &&& v.filter(|y: u64| y <= x).len() > r
        },
{
    if v.len() > 0 {
        let r: int = if rank < v.len() {
            rank as int
        } else {
            v.len() - 1
        };
        let x = value_at_rank(v, rank)->0;
        let rel = value_rel(v);
        assert(strict_total(v.len(), rel));
        lemma_arrangement_exists(v.len(), rel);
        let at = arrangement(v.len(), rel);
        crate::order::lemma_arrangement_distinct(v.len(), rel, at);
        let s = sorted_values(v);
        lemma_sorted_values(v);
        assert(s[r] == x);
        assert(s.contains(x));
        assert forall|k: int| 0 <= k < v.len() implies 0 <= #[trigger] at[k] < v.len() && s[k]
            == v[at[k]] by {}
        let below = |y: u64| y < x;
        let upto = |y: u64| y <= x;
        let p = crate::order::lemma_filter_positions(v, below);
        let head = at.take(r);
        assert forall|k: int| 0 <= k < p.len() implies head.contains(#[trigger] p[k]) by {
            lemma_arrangement_covers(v.len(), rel, at, p[k]);
            let j = choose|j: int| 0 <= j < at.len() && at[j] == p[k];
            assert(below(v[p[k]]));
            if j >= r {
                assert(s[r] <= s[j]);
            }
            assert(head[j] == p[k]);
        }
        assert(p.no_duplicates()) by {
            assert forall|a: int, b: int| 0 <= a < p.len() && 0 <= b < p.len() && a != b implies p[a]
                != p[b] by {
                if a < b {
                    assert(p[a] < p[b]);
                } else {
                    assert(p[b] < p[a]);
                }
            }
        }
        lemma_distinct_within(p, head);
        let q = crate::order::lemma_filter_positions(v, upto);
        let more = at.take(r + 1);
        assert forall|k: int| 0 <= k < more.len() implies q.contains(#[trigger] more[k]) by {
            assert(more[k] == at[k]);
            assert(s[k] <= s[r]);
            assert(upto(v[at[k]]));
        }
        assert forall|a: int, b: int|
            0 <= a < more.len() && 0 <= b < more.len() && a != b implies more[a] != more[b] by {
            assert(at[a] != at[b]);
        }
        lemma_distinct_within(more, q);
    }
}

/// Of the checks of a scenario the first is passed exactly where no queue overflowed; each of the
/// others exactly where its figure is within its limit. Each says its figure and its limit.
pub proof fn lemma_checks_follow_limits(overflow_events: usize, limits: LimitChecks)
    ensures
        ({
            let c = checks_of(overflow_events, limits);
            &&& c.len() == 7
            &&& c[0].name == "zero_data_loss_overflow"@ && c[1].name == "near_full_ratio"@
                && c[2].name == "http_error_rate"@ && c[3].name == "http_latency_p95_ms"@
                && c[4].name == "http_latency_p99_ms"@ && c[5].name == "cpu_avg_pct"@ && c[6].name
                == "cpu_peak_pct"@
            &&& c[0].passed <==> overflow_events == 0
            &&& c[0].actual == decimal(overflow_events as nat) && c[0].target == "0"@
            &&& c[1].passed == limits.near_full_ratio.within && c[1].actual
                == limits.near_full_ratio.actual@ && c[1].target == "<= "@
                + limits.near_full_ratio.limit@
            &&& c[2].passed == limits.http_error_rate.within && c[2].actual
                == limits.http_error_rate.actual@ && c[2].target == "<= "@
                + limits.http_error_rate.limit@
            &&& c[3].passed == limits.http_latency_p95_ms.within && c[3].actual
                == limits.http_latency_p95_ms.actual@ && c[3].target == "<= "@
                + limits.http_latency_p95_ms.limit@
            &&& c[4].passed == limits.http_latency_p99_ms.within && c[4].actual
                == limits.http_latency_p99_ms.actual@ && c[4].target == "<= "@
                + limits.http_latency_p99_ms.limit@
            &&& c[5].passed == limits.cpu_avg_pct.within && c[5].actual
                == limits.cpu_avg_pct.actual@ && c[5].target == "<= "@ + limits.cpu_avg_pct.limit@
            &&& c[6].passed == limits.cpu_peak_pct.within && c[6].actual
                == limits.cpu_peak_pct.actual@ && c[6].target == "<= "@
                + limits.cpu_peak_pct.limit@
        }),
{
}

/// As many checks passed as are marked so.
pub proof fn lemma_passed_are_marked(checks: Seq<CheckView>)
    ensures
        passed_count(checks) == checks.filter(|c: CheckView| c.passed).len(),
    decreases checks.len(),
{
    reveal(Seq::filter);
    if checks.len() > 0 {
        lemma_passed_are_marked(checks.drop_last());
    }
}

/// The lines of two lists of checks follow each other; the line of one check says its name, whether
/// it passed, its figure and its limit.
pub proof fn lemma_check_lines(a: Seq<CheckView>, b: Seq<CheckView>, c: CheckView)
    ensures
        check_lines(Seq::empty()) == Seq::<char>::empty(),
        check_lines(a + b) == check_lines(a) + check_lines(b),
        c.passed ==> check_lines(seq![c]) == "- "@ + c.name + ": PASS (actual "@ + c.actual
            + ", target "@ + c.target + ")\n"@,
        !c.passed ==> check_lines(seq![c]) == "- "@ + c.name + ": FAIL (actual "@ + c.actual
            + ", target "@ + c.target + ")\n"@,
    decreases b.len(),
{
    reveal_strlit(": ");
    reveal_strlit("PASS");
    reveal_strlit("FAIL");
    reveal_strlit(" (actual ");
    reveal_strlit(": PASS (actual ");
    reveal_strlit(": FAIL (actual ");
    assert(seq![c].drop_last() =~= Seq::empty());
    assert(check_lines(seq![c].drop_last()) =~= Seq::empty());
    assert(": "@ + "PASS"@ + " (actual "@ =~= ": PASS (actual "@);
    assert(": "@ + "FAIL"@ + " (actual "@ =~= ": FAIL (actual "@);
    assert(check_lines(seq![c]) =~= check_line(c));
    if c.passed {
        assert(check_line(c) =~= "- "@ + c.name + ": PASS (actual "@ + c.actual + ", target "@
            + c.target + ")\n"@);
    } else {
        assert(check_line(c) =~= "- "@ + c.name + ": FAIL (actual "@ + c.actual + ", target "@
            + c.target + ")\n"@);
    }
    if b.len() == 0 {
        assert(a + b =~= a);
        assert(check_lines(a) + Seq::<char>::empty() =~= check_lines(a));
    } else {
        lemma_check_lines(a, b.drop_last(), c);
        assert((a + b).drop_last() =~= a + b.drop_last());
        let x = check_lines(a);
        let y = check_lines(b.drop_last());
        let z = check_line(b.last());
        assert((x + y) + z =~= x + (y + z));
    }
}

/// What is said of a check is what it holds; checks are said one by one.
pub proof fn lemma_check_says_what_it_holds(c: &CheckResult, v: Seq<CheckResult>)
    ensures
        c@.name == c.name@,
        c@.passed == c.passed,
        c@.actual == c.actual@,
        c@.target == c.target@,
        check_views(v).len() == v.len(),
        forall|k: int| 0 <= k < v.len() ==> #[trigger] check_views(v)[k] == v[k]@,
{
}

/// The first lines of a digest: how many checks passed and how many there are, and the figures of
/// the scenario.
pub proof fn lemma_digest_head(
    scenario_id: Seq<char>,
    checks: Seq<CheckView>,
    f: ScenarioSummary,
    t: DigestTexts,
)
    ensures
        digest_head(scenario_id, checks, f, t) == "# Benchmark Digest: "@ + scenario_id
            + "\n\n- Checks passed: "@ + decimal(checks.filter(|c: CheckView| c.passed).len())
            + "/"@ + decimal(checks.len()) + "\n- Overflow events: "@ + decimal(
            f.overflow_events as nat,
        ) + "\n- Near-full ratio: "@ + t.near_full_ratio@ + "\n- Frame throughput (tps): "@
            + t.frame_tps@ + "\n- Pipeline latency avg/p95 (ms): "@ + t.pipeline_latency_avg_ms@
            + "/"@ + t.pipeline_latency_p95_ms@ + "\n- HTTP success/fail: "@ + decimal(
            f.http_success as nat,
        ) + "/"@ + decimal(f.http_fail as nat) + "\n- HTTP latency p50/p95/p99 (ms): "@
            + t.http_latency_p50_ms@ + "/"@ + t.http_latency_p95_ms@ + "/"@
            + t.http_latency_p99_ms@ + "\n- CPU avg/peak (%): "@ + t.cpu_avg_pct@ + "/"@
            + t.cpu_peak_pct@ + "\n\n## Check Details\n"@,
{
    lemma_passed_are_marked(checks);
}

} // verus!
