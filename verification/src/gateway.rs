//! How the gateway is configured, which sensors it runs, and what it prints.
use vstd::prelude::*;
use vstd::string::StringExecFns;
use crate::models::{texts, BufferTelemetrySnapshot};
use crate::rates::{lemma_rates_positive, parse_rates, rate_at, rate_for_index, rates_in};
use crate::sensor_buffer::BufferUtilizationStats;
use crate::text::{
    chars_of, decimal, is_white_space, lemma_decimal_injective, push_decimal, white_space,
};

verus! {

/// How many sensors there are of each kind, and their rates per second.
#[derive(Debug)]
pub struct SensorsConfig {
    pub thermo_count: usize,
    pub thermo_rates_per_sec: String,
    pub accel_count: usize,
    pub accel_rates_per_sec: String,
    pub force_count: usize,
    pub force_rates_per_sec: String,
}

/// The shared buffer.
#[derive(Debug)]
pub struct BufferConfig {
    pub capacity: usize,
}

/// The dashboard.
#[derive(Debug)]
pub struct DashboardConfig {
    pub addr: String,
}

impl Default for DashboardConfig {
    fn default() -> (r: Self)
        ensures
            r.addr@ == "0.0.0.0:5800"@,
    {
        DashboardConfig { addr: "0.0.0.0:5800".to_string() }
    }
}

/// The internal queues of the sensors. The ratio from which they are near full is a
/// double-precision number, as its bit pattern.
#[derive(Clone, Copy, Debug, PartialEq, Eq, Structural)]
pub struct SensorInternalBufferConfig {
    pub usable_capacity: usize,
    pub near_full_ratio: u64,
}

impl Default for SensorInternalBufferConfig {
    /// A queue of 128 slots keeps one free; it is near full at 0.85.
    fn default() -> (r: Self)
        ensures
            r == (SensorInternalBufferConfig {
                usable_capacity: 127,
                near_full_ratio: 0x3feb_3333_3333_3333,
            }),
    {
        SensorInternalBufferConfig { usable_capacity: 127, near_full_ratio: 0x3feb_3333_3333_3333 }
    }
}

/// The configuration of the gateway.
#[derive(Debug)]
pub struct GatewayConfig {
    pub sensors: SensorsConfig,
    pub buffer: BufferConfig,
    pub dashboard: DashboardConfig,
    pub sensor_internal_buffer: SensorInternalBufferConfig,
}

impl Default for GatewayConfig {
    fn default() -> (r: Self)
        ensures
            r.sensors.thermo_count == 2,
            r.sensors.thermo_rates_per_sec@ == "50 50"@,
            r.sensors.accel_count == 2,
            r.sensors.accel_rates_per_sec@ == "100 100"@,
            r.sensors.force_count == 1,
            r.sensors.force_rates_per_sec@ == "75"@,
            r.buffer.capacity == 5000,
            r.dashboard.addr@ == "0.0.0.0:5800"@,
            r.sensor_internal_buffer == (SensorInternalBufferConfig {
                usable_capacity: 127,
                near_full_ratio: 0x3feb_3333_3333_3333,
            }),
    {
        GatewayConfig {
            sensors: SensorsConfig {
                thermo_count: 2,
                thermo_rates_per_sec: "50 50".to_string(),
                accel_count: 2,
                accel_rates_per_sec: "100 100".to_string(),
                force_count: 1,
                force_rates_per_sec: "75".to_string(),
            },
            buffer: BufferConfig { capacity: 5000 },
            dashboard: DashboardConfig::default(),
            sensor_internal_buffer: SensorInternalBufferConfig::default(),
        }
    }
}

/// Why the configured file is not used.
#[derive(Clone, Copy, Debug, PartialEq, Eq, Structural)]
pub enum ConfigFault {
    Unreadable,
    Invalid,
}

/// The warning about a configuration file that is not used.
pub open spec fn config_warning_text(
    fault: ConfigFault,
    path: Seq<char>,
    reason: Seq<char>,
) -> Seq<char> {
    (match fault {
        ConfigFault::Unreadable => "Warning: failed to read config file "@,
        ConfigFault::Invalid => "Warning: failed to parse config file "@,
    }) + path + ": "@ + reason + ". Using defaults."@
}

/// Writes the warning about a configuration file that is not used.
pub fn config_warning(fault: ConfigFault, path: &str, reason: &str) -> (r: String)
    ensures
        r@ == config_warning_text(fault, path@, reason@),
{
    let lead = match fault {
        ConfigFault::Unreadable => "Warning: failed to read config file ",
        ConfigFault::Invalid => "Warning: failed to parse config file ",
    };
    let mut r = lead.to_string();
    r.append(path);
    r.append(": ");
    r.append(reason);
    r.append(". Using defaults.");
    r
}

/// Whether the value of an environment variable switches a flag on.
pub open spec fn switches_on(value: Seq<char>) -> bool {
    value == "1"@ || value == "true"@ || value == "TRUE"@ || value == "True"@
}

/// Whether a flag is on. A variable that is not set leaves it off.
pub fn flag_enabled(value: Option<String>) -> (b: bool)
    ensures
        b == (value is Some && switches_on(value->0@)),
{
    match value {
        Some(v) => v == "1".to_string() || v == "true".to_string() || v == "TRUE".to_string() || v
            == "True".to_string(),
        None => false,
    }
}

/// The path of the configuration file.
pub fn config_path(from_env: Option<String>) -> (r: String)
    ensures
        r@ == match from_env {
            Some(path) => path@,
            None => "./config.toml"@,
        },
{
    match from_env {
        Some(path) => path,
        None => "./config.toml".to_string(),
    }
}

/// Whether a text holds nothing but white space.
pub open spec fn is_blank(s: Seq<char>) -> bool {
    forall|i: int| 0 <= i < s.len() ==> is_white_space(#[trigger] s[i])
}

/// Whether a text holds nothing but white space.
fn blank(s: &str) -> (b: bool)
    ensures
        b == is_blank(s@),
{
    let chars = chars_of(s);
    let mut i: usize = 0;
    while i < chars.len()
        invariant
            i <= chars.len(),
            chars@ == s@,
            forall|k: int| 0 <= k < i ==> is_white_space(#[trigger] s@[k]),
        decreases chars.len() - i,
    {
        if !white_space(chars[i]) {
            return false;
        }
        i = i + 1;
    }
    true
}

/// Where the dashboard listens: as configured; where that is blank, as the environment says; and
/// without either on port 5800.
pub fn dashboard_addr(configured: &String, from_env: Option<String>) -> (r: String)
    ensures
        r@ == if !is_blank(configured@) {
            configured@
        } else {
            match from_env {
                Some(addr) => addr@,
                None => "0.0.0.0:5800"@,
            }
        },
{
    if blank(configured.as_str()) {
        match from_env {
            Some(addr) => addr,
            None => "0.0.0.0:5800".to_string(),
        }
    } else {
        configured.clone()
    }
}

/// How many aggregation workers there are: one per sensor, but at least one, and no more than
/// there are processors. Where the number of processors is not known, it counts as four.
pub fn aggregation_workers(total_sensors: usize, processors: Option<usize>) -> (n: usize)
    ensures
        ({
            let cpu = match processors {
                Some(p) => p,
                None => 4,
            };
            let most = if cpu >= 1 {
                cpu
            } else {
                1
            };
            n == if total_sensors < 1 {
                1
            } else if total_sensors > most {
                most
            } else {
                total_sensors
            }
        }),
        n >= 1,
        n <= total_sensors || n == 1,
        processors matches Some(p) ==> n <= p || n == 1,
        processors matches Some(p) ==> n >= p || n >= total_sensors,
        processors is None ==> n <= 4 && (n == 4 || n >= total_sensors),
{
    let cpu: usize = match processors {
        Some(p) => p,
        None => 4,
    };
    let most: usize = if cpu >= 1 {
        cpu
    } else {
        1
    };
    if total_sensors < 1 {
        1
    } else if total_sensors > most {
        most
    } else {
        total_sensors
    }
}

/// What a sensor measures.
#[derive(Clone, Copy, Debug, PartialEq, Eq, Structural)]
pub enum SensorKind {
    Thermo,
    Accel,
    Force,
}

impl SensorKind {
    /// What the identifiers of these sensors start with.
    pub open spec fn prefix(self) -> Seq<char> {
        match self {
            SensorKind::Thermo => "thermo-"@,
            SensorKind::Accel => "accel-"@,
            SensorKind::Force => "force-"@,
        }
    }

    /// The rate of these sensors where none is configured.
    pub open spec fn usual_rate(self) -> u32 {
        match self {
            SensorKind::Thermo => 50,
            SensorKind::Accel => 100,
            SensorKind::Force => 75,
        }
    }
}

/// A sensor to be run.
#[derive(Debug)]
pub struct SensorPlan {
    pub kind: SensorKind,
    pub id: String,
    pub rate_per_sec: u32,
}

/// What the plan for a sensor says.
pub struct PlanView {
    pub kind: SensorKind,
    pub id: Seq<char>,
    pub rate_per_sec: u32,
}

impl View for SensorPlan {
    type V = PlanView;

    open spec fn view(&self) -> PlanView {
        PlanView { kind: self.kind, id: self.id@, rate_per_sec: self.rate_per_sec }
    }
}

/// What a list of plans says.
pub open spec fn plan_views(v: Seq<SensorPlan>) -> Seq<PlanView> {
    v.map_values(|p: SensorPlan| p@)
}

/// The sensor at position `i` among those of its kind.
pub open spec fn planned(kind: SensorKind, rates: Seq<char>, i: int) -> PlanView {
    PlanView {
        kind,
        id: kind.prefix() + decimal((i + 1) as nat),
        rate_per_sec: rate_at(rates_in(rates, kind.usual_rate()), i),
    }
}

/// All sensors of one kind.
pub open spec fn planned_all(kind: SensorKind, rates: Seq<char>, count: usize) -> Seq<PlanView> {
    Seq::new(count as nat, |i: int| planned(kind, rates, i))
}

/// All sensors: those that measure temperature, then acceleration, then force.
pub open spec fn all_planned(cfg: SensorsConfig) -> Seq<PlanView> {
    planned_all(SensorKind::Thermo, cfg.thermo_rates_per_sec@, cfg.thermo_count) + planned_all(
        SensorKind::Accel,
        cfg.accel_rates_per_sec@,
        cfg.accel_count,
    ) + planned_all(SensorKind::Force, cfg.force_rates_per_sec@, cfg.force_count)
}

/// Adds the sensors of one kind to a list.
fn plan_kind(out: &mut Vec<SensorPlan>, kind: SensorKind, rates: &str, count: usize)
    ensures
        plan_views(final(out)@) == plan_views(old(out)@) + planned_all(kind, rates@, count),
{
    let ghost start = plan_views(out@);
    let (prefix, usual): (&str, u32) = match kind {
        SensorKind::Thermo => ("thermo-", 50),
        SensorKind::Accel => ("accel-", 100),
        SensorKind::Force => ("force-", 75),
    };
    let parsed = parse_rates(rates, usual);
    let mut i: usize = 0;
    assert(start + planned_all(kind, rates@, 0) =~= start);
    while i < count
        invariant
            i <= count,
            prefix@ == kind.prefix(),
            parsed@ == rates_in(rates@, kind.usual_rate()),
            plan_views(out@) == start + planned_all(kind, rates@, i),
        decreases count - i,
    {
        let ghost before = plan_views(out@);
        let mut id = prefix.to_string();
        push_decimal(&mut id, (i + 1) as u64);
        let plan = SensorPlan { kind, id, rate_per_sec: rate_for_index(parsed.as_slice(), i) };
        out.push(plan);
        proof {
            assert(plan_views(out@) =~= before.push(plan@));
            assert(plan@ == planned(kind, rates@, i as int));
            assert(planned_all(kind, rates@, (i + 1) as usize) =~= planned_all(
                kind,
                rates@,
                i,
            ).push(plan@));
            assert(start + planned_all(kind, rates@, (i + 1) as usize) =~= before.push(plan@));
        }
        i = i + 1;
    }
}

/// Plans all sensors of a configuration.
pub fn plan_sensors(cfg: &SensorsConfig) -> (r: Vec<SensorPlan>)
    ensures
        plan_views(r@) == all_planned(*cfg),
{
    let mut r: Vec<SensorPlan> = Vec::new();
    assert(plan_views(r@) =~= Seq::empty());
    plan_kind(&mut r, SensorKind::Thermo, cfg.thermo_rates_per_sec.as_str(), cfg.thermo_count);
    plan_kind(&mut r, SensorKind::Accel, cfg.accel_rates_per_sec.as_str(), cfg.accel_count);
    plan_kind(&mut r, SensorKind::Force, cfg.force_rates_per_sec.as_str(), cfg.force_count);
    assert(plan_views(r@) =~= all_planned(*cfg));
    r
}

/// No two sensors have the same identifier.
pub proof fn lemma_sensor_ids_differ(
    a: SensorKind,
    a_rates: Seq<char>,
    i: nat,
    b: SensorKind,
    b_rates: Seq<char>,
    j: nat,
)
    requires
        planned(a, a_rates, i as int).id == planned(b, b_rates, j as int).id,
    ensures
        a == b,
        i == j,
{
    reveal_strlit("thermo-");
    reveal_strlit("accel-");
    reveal_strlit("force-");
    let x = planned(a, a_rates, i as int).id;
    let y = planned(b, b_rates, j as int).id;
    assert(x[0] == a.prefix()[0]);
    assert(y[0] == b.prefix()[0]);
    let n = a.prefix().len() as int;
    assert(x.skip(n) =~= decimal((i + 1) as nat));
    assert(y.skip(n) =~= decimal((j + 1) as nat));
    lemma_decimal_injective((i + 1) as nat, (j + 1) as nat);
}

/// Every sensor has a rate that its producer can divide by.
pub proof fn lemma_planned_rates_positive(kind: SensorKind, rates: Seq<char>, i: nat)
    ensures
        planned(kind, rates, i as int).rate_per_sec > 0,
{
    lemma_rates_positive(rates, kind.usual_rate(), i as int);
}

/// The line that says how many sensors and workers there are.
pub open spec fn configured_text(cfg: SensorsConfig, total: usize, workers: usize) -> Seq<char> {
    "Configured sensors: thermo="@ + decimal(cfg.thermo_count as nat) + ", accel="@ + decimal(
        cfg.accel_count as nat,
    ) + ", force="@ + decimal(cfg.force_count as nat) + " (total="@ + decimal(total as nat)
        + "), aggregation_workers="@ + decimal(workers as nat)
}

/// Writes the line that says how many sensors and workers there are.
pub fn configured_line(cfg: &SensorsConfig, total: usize, workers: usize) -> (r: String)
    ensures
        r@ == configured_text(*cfg, total, workers),
{
    let mut r = "Configured sensors: thermo=".to_string();
    push_decimal(&mut r, cfg.thermo_count as u64);
    r.append(", accel=");
    push_decimal(&mut r, cfg.accel_count as u64);
    r.append(", force=");
    push_decimal(&mut r, cfg.force_count as u64);
    r.append(" (total=");
    push_decimal(&mut r, total as u64);
    r.append("), aggregation_workers=");
    push_decimal(&mut r, workers as u64);
    r
}

/// What is printed about the internal queues: nothing while all is well, and else one line
/// followed by the warnings.
pub open spec fn queue_report(
    any_full: bool,
    any_near_full: bool,
    warnings: Seq<Seq<char>>,
) -> Seq<Seq<char>> {
    let details = warnings.map_values(|w: Seq<char>| "  - "@ + w);
    if any_full {
        seq!["WARNING: at least one sensor internal buffer is FULL!"@] + details
    } else if any_near_full {
        seq!["WARNING: at least one sensor internal buffer is near full."@] + details
    } else {
        Seq::empty()
    }
}

/// Writes what is printed about the internal queues.
pub fn queue_lines(snapshot: &BufferTelemetrySnapshot) -> (r: Vec<String>)
    ensures
        texts(r@) == queue_report(
            snapshot@.any_full,
            snapshot@.any_near_full,
            snapshot@.warnings,
        ),
{
    let mut r: Vec<String> = Vec::new();
    assert(texts(r@) =~= Seq::empty());
    if !snapshot.any_full && !snapshot.any_near_full {
        return r;
    }
    let lead = if snapshot.any_full {
        "WARNING: at least one sensor internal buffer is FULL!"
    } else {
        "WARNING: at least one sensor internal buffer is near full."
    };
    let ghost details = snapshot@.warnings.map_values(|w: Seq<char>| "  - "@ + w);
    r.push(lead.to_string());
    let mut i: usize = 0;
    assert(texts(r@) =~= seq![lead@] + details.take(0));
    while i < snapshot.warnings.len()
        invariant
            i <= snapshot.warnings.len(),
            details == snapshot@.warnings.map_values(|w: Seq<char>| "  - "@ + w),
            texts(r@) == seq![lead@] + details.take(i as int),
        decreases snapshot.warnings.len() - i,
    {
        let ghost before = texts(r@);
        let mut line = "  - ".to_string();
        line.append(snapshot.warnings[i].as_str());
        r.push(line);
        proof {
            assert(snapshot@.warnings[i as int] == snapshot.warnings@[i as int]@);
            assert(line@ == details[i as int]);
            assert(texts(r@) =~= before.push(line@));
            assert(texts(r@) =~= seq![lead@] + details.take(i + 1));
        }
        i = i + 1;
    }
    assert(details.take(i as int) =~= details);
    r
}

/// The line on the shared buffer, with its use in percent as a text.
pub open spec fn usage_text(s: BufferUtilizationStats, percent: Seq<char>, detailed: bool) -> Seq<
    char,
> {
    let fill = decimal(s.len as nat) + "/"@ + decimal(s.capacity as nat) + " ("@ + percent;
    if detailed {
        "Buffer: len="@ + fill + "%), pushed+"@ + decimal(s.pushed_per_sec as nat)
            + " /s, popped+"@ + decimal(s.popped_per_sec as nat) + " /s"@
    } else {
        "Buffer usage: "@ + fill + "%)"@
    }
}

/// Writes the line on the shared buffer.
pub fn usage_line(s: &BufferUtilizationStats, percent: &str, detailed: bool) -> (r: String)
    ensures
        r@ == usage_text(*s, percent@, detailed),
{
    let lead = if detailed {
        "Buffer: len="
    } else {
        "Buffer usage: "
    };
    let mut r = lead.to_string();
    push_decimal(&mut r, s.len as u64);
    r.append("/");
    push_decimal(&mut r, s.capacity as u64);
    r.append(" (");
    r.append(percent);
    if detailed {
        r.append("%), pushed+");
        push_decimal(&mut r, s.pushed_per_sec);
        r.append(" /s, popped+");
        push_decimal(&mut r, s.popped_per_sec);
        r.append(" /s");
    } else {
        r.append("%)");
    }
    assert(r@ =~= usage_text(*s, percent@, detailed));
    r
}

/// A flag is switched on by these four values and by no other.
pub proof fn lemma_what_switches_on(value: Seq<char>)
    ensures
        switches_on(value) <==> value == "1"@ || value == "true"@ || value == "TRUE"@ || value
            == "True"@,
{
}

/// A text is blank exactly where no character of it is anything but white space.
pub proof fn lemma_what_is_blank(s: Seq<char>)
    ensures
        is_blank(Seq::empty()),
        is_blank(s) <==> !exists|i: int| 0 <= i < s.len() && !is_white_space(#[trigger] s[i]),
{
}

/// All sensors are planned: as many of each kind as configured, those for temperature first, then
/// those for acceleration, then those for force. Each is named by its kind and its number, from 1
/// on, and has its rate among those configured for its kind.
pub proof fn lemma_all_sensors_are_planned(cfg: SensorsConfig, i: int)
    ensures
        all_planned(cfg).len() == cfg.thermo_count + cfg.accel_count + cfg.force_count,
        0 <= i < cfg.thermo_count ==> all_planned(cfg)[i] == (PlanView {
            kind: SensorKind::Thermo,
            id: "thermo-"@ + decimal((i + 1) as nat),
            rate_per_sec: rate_at(rates_in(cfg.thermo_rates_per_sec@, 50), i),
        }),
        0 <= i < cfg.accel_count ==> all_planned(cfg)[cfg.thermo_count + i] == (PlanView {
            kind: SensorKind::Accel,
            id: "accel-"@ + decimal((i + 1) as nat),
            rate_per_sec: rate_at(rates_in(cfg.accel_rates_per_sec@, 100), i),
        }),
        0 <= i < cfg.force_count ==> all_planned(cfg)[cfg.thermo_count + cfg.accel_count + i] == (
        PlanView {
            kind: SensorKind::Force,
            id: "force-"@ + decimal((i + 1) as nat),
            rate_per_sec: rate_at(rates_in(cfg.force_rates_per_sec@, 75), i),
        }),
{
}

/// What is printed about the queues: nothing while none is full or near full; else a line that says
/// which, and each warning, in order, on a line of its own.
pub proof fn lemma_queue_report(any_full: bool, any_near_full: bool, warnings: Seq<Seq<char>>)
    ensures
        ({
            let r = queue_report(any_full, any_near_full, warnings);
            &&& !any_full && !any_near_full ==> r.len() == 0
            &&& any_full || any_near_full ==> r.len() == warnings.len() + 1 && forall|k: int|
                0 <= k < warnings.len() ==> #[trigger] r[k + 1] == "  - "@ + warnings[k]
            &&& any_full ==> r[0] == "WARNING: at least one sensor internal buffer is FULL!"@
            &&& any_near_full && !any_full ==> r[0]
                == "WARNING: at least one sensor internal buffer is near full."@
        }),
{
}

/// The lines that the gateway prints about its configuration and its buffer.
pub proof fn lemma_printed_lines(
    cfg: SensorsConfig,
    total: usize,
    workers: usize,
    s: BufferUtilizationStats,
    percent: Seq<char>,
    path: Seq<char>,
    reason: Seq<char>,
)
    ensures
        configured_text(cfg, total, workers) == "Configured sensors: thermo="@ + decimal(
            cfg.thermo_count as nat,
        ) + ", accel="@ + decimal(cfg.accel_count as nat) + ", force="@ + decimal(
            cfg.force_count as nat,
        ) + " (total="@ + decimal(total as nat) + "), aggregation_workers="@ + decimal(
            workers as nat,
        ),
        usage_text(s, percent, false) == "Buffer usage: "@ + (decimal(s.len as nat) + "/"@ + decimal(
            s.capacity as nat,
        ) + " ("@ + percent) + "%)"@,
        usage_text(s, percent, true) == "Buffer: len="@ + (decimal(s.len as nat) + "/"@ + decimal(
            s.capacity as nat,
        ) + " ("@ + percent) + "%), pushed+"@ + decimal(s.pushed_per_sec as nat) + " /s, popped+"@
            + decimal(s.popped_per_sec as nat) + " /s"@,
        config_warning_text(ConfigFault::Unreadable, path, reason)
            == "Warning: failed to read config file "@ + path + ": "@ + reason
            + ". Using defaults."@,
        config_warning_text(ConfigFault::Invalid, path, reason)
            == "Warning: failed to parse config file "@ + path + ": "@ + reason
            + ". Using defaults."@,
{
}

/// What is said of a planned sensor is what its plan holds.
pub proof fn lemma_plan_says_what_it_holds(p: &SensorPlan)
    ensures
        p@.kind == p.kind,
        p@.id == p.id@,
        p@.rate_per_sec == p.rate_per_sec,
{
}

/// Planned sensors are said one by one.
pub proof fn lemma_plans_one_by_one(v: Seq<SensorPlan>)
    ensures
        plan_views(v).len() == v.len(),
        forall|k: int| 0 <= k < v.len() ==> #[trigger] plan_views(v)[k] == v[k]@,
{
}

} // verus!
