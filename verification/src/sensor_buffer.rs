//! The bounded buffer between sensor readers and aggregation workers, and its bookkeeping.
use std::collections::VecDeque;
use vstd::prelude::*;
use vstd::string::StringExecFns;
use crate::id_map::{ids_ascending, IdMap};
use crate::models::{
    AccelReading, BufferTelemetrySnapshot, ForceReading, StatusView, ThermoReading,
    ThroughputTelemetrySnapshot,
};
use crate::telemetry::{
    add_current_status, current_depth, current_status, empty_telemetry, larger, summarized,
};
use crate::text::{decimal, push_decimal};

verus! {

/// A reading with the identifier of its sensor, the time in milliseconds at which it was taken
/// out of the sensor's queue, and the length that queue had then.
#[derive(Debug)]
pub enum SensorReading {
    Accel(AccelReading, String, u64, usize),
    Force(ForceReading, String, u64, usize),
    Thermo(ThermoReading, String, u64, usize),
}

impl Clone for SensorReading {
    fn clone(&self) -> (r: Self)
        ensures
            r == *self,
    {
        match self {
            SensorReading::Accel(v, id, ts, n) => SensorReading::Accel(*v, id.clone(), *ts, *n),
            SensorReading::Force(v, id, ts, n) => SensorReading::Force(*v, id.clone(), *ts, *n),
            SensorReading::Thermo(v, id, ts, n) => SensorReading::Thermo(*v, id.clone(), *ts, *n),
        }
    }
}

impl SensorReading {
    /// The sensor's identifier.
    pub open spec fn id(self) -> Seq<char> {
        match self {
            SensorReading::Accel(_, id, _, _) => id@,
            SensorReading::Force(_, id, _, _) => id@,
            SensorReading::Thermo(_, id, _, _) => id@,
        }
    }

    /// The time in milliseconds.
    pub open spec fn ts(self) -> u64 {
        match self {
            SensorReading::Accel(_, _, ts, _) => ts,
            SensorReading::Force(_, _, ts, _) => ts,
            SensorReading::Thermo(_, _, ts, _) => ts,
        }
    }

    /// The length of the sensor's queue.
    pub open spec fn depth(self) -> usize {
        match self {
            SensorReading::Accel(_, _, _, n) => n,
            SensorReading::Force(_, _, _, n) => n,
            SensorReading::Thermo(_, _, _, n) => n,
        }
    }

    /// The sensor's identifier.
    pub fn sensor_id(&self) -> (r: &str)
        ensures
            r@ == self.id(),
    {
        match self {
            SensorReading::Accel(_, id, _, _) => id.as_str(),
            SensorReading::Force(_, id, _, _) => id.as_str(),
            SensorReading::Thermo(_, id, _, _) => id.as_str(),
        }
    }

    /// The time in milliseconds.
    pub fn timestamp_millis(&self) -> (r: u64)
        ensures
            r == self.ts(),
    {
        match self {
            SensorReading::Accel(_, _, ts, _) => *ts,
            SensorReading::Force(_, _, ts, _) => *ts,
            SensorReading::Thermo(_, _, ts, _) => *ts,
        }
    }

    /// The length of the sensor's queue.
    pub fn internal_len(&self) -> (r: usize)
        ensures
            r == self.depth(),
    {
        match self {
            SensorReading::Accel(_, _, _, n) => *n,
            SensorReading::Force(_, _, _, n) => *n,
            SensorReading::Thermo(_, _, _, n) => *n,
        }
    }
}

/// What came of an attempt to push.
pub enum PushOutcome {
    /// The reading is in the buffer; one consumer is to be woken.
    Stored,
    /// The buffer is full: wait for room, then push the reading again.
    Wait(SensorReading),
    /// The buffer is full and is to fail then.
    Overflow { len: usize, capacity: usize },
    /// The buffer is full and readers are to end: do not wait, the reading is given up.
    Ended(SensorReading),
}

/// What came of an attempt to pop within a time limit.
pub enum TimedPop {
    /// A reading; one producer is to be woken.
    Popped(SensorReading),
    /// The buffer is empty and there is time left: wait for a reading.
    Wait,
    /// The buffer is empty and the time is up.
    TimedOut,
}

/// The number after `n` on a 64-bit counter.
pub open spec fn counted(n: u64) -> u64 {
    if n == u64::MAX {
        0
    } else {
        (n + 1) as u64
    }
}

/// Adds one to a 64-bit counter, which wraps around.
fn count(n: u64) -> (r: u64)
    ensures
        r == counted(n),
{
    if n == u64::MAX {
        0
    } else {
        n + 1
    }
}

/// Readings that wait for aggregation. Its view is the readings, oldest first.
pub struct SharedBuffer {
    queue: VecDeque<SensorReading>,
    capacity: usize,
    fail_on_full: bool,
    pushed_total: u64,
    popped_total: u64,
    full_waits_total: u64,
}

impl View for SharedBuffer {
    type V = Seq<SensorReading>;

    closed spec fn view(&self) -> Seq<SensorReading> {
        self.queue@
    }
}

/// What a push to the buffer `before` gives, and what it leaves: a full buffer fails or makes the
/// push wait, but while readers are not to go on, none waits.
pub open spec fn push_gives(
    before: SharedBuffer,
    reading: SensorReading,
    go_on: bool,
    r: PushOutcome,
    after: SharedBuffer,
) -> bool {
    &&& after.room() == before.room()
    &&& after.fails_on_full() == before.fails_on_full()
    &&& after.popped() == before.popped()
    &&& match r {
        PushOutcome::Stored => {
            &&& !before.is_full()
            &&& after@ == before@.push(reading)
            &&& after.pushed() == counted(before.pushed())
            &&& after.waits() == before.waits()
        },
        PushOutcome::Wait(kept) => {
            &&& before.is_full() && !before.fails_on_full() && go_on
            &&& kept == reading
            &&& after@ == before@
            &&& after.pushed() == before.pushed()
            &&& after.waits() == counted(before.waits())
        },
        PushOutcome::Overflow { len, capacity } => {
            &&& before.is_full() && before.fails_on_full()
            &&& len == before@.len()
            &&& capacity == before.room()
            &&& after == before
        },
        PushOutcome::Ended(kept) => {
            &&& before.is_full() && !before.fails_on_full() && !go_on
            &&& kept == reading
            &&& after == before
        },
    }
}

/// What a pop from the buffer `before` gives, and what it leaves: the oldest reading is taken out,
/// if there is one.
pub open spec fn pop_gives(
    before: SharedBuffer,
    r: Option<SensorReading>,
    after: SharedBuffer,
) -> bool {
    &&& after.room() == before.room()
    &&& after.fails_on_full() == before.fails_on_full()
    &&& after.pushed() == before.pushed()
    &&& after.waits() == before.waits()
    &&& match r {
        Some(reading) => {
            &&& before@.len() > 0
            &&& reading == before@[0]
            &&& after@ == before@.skip(1)
            &&& after.popped() == counted(before.popped())
        },
        None => {
            &&& before@.len() == 0
            &&& after@ == before@
            &&& after.popped() == before.popped()
        },
    }
}

/// What a pop within a time limit gives, and what it leaves.
pub open spec fn timed_pop_gives(
    before: SharedBuffer,
    time_is_up: bool,
    r: TimedPop,
    after: SharedBuffer,
) -> bool {
    match r {
        TimedPop::Popped(reading) => pop_gives(before, Some(reading), after),
        TimedPop::Wait => !time_is_up && pop_gives(before, None, after),
        TimedPop::TimedOut => time_is_up && pop_gives(before, None, after),
    }
}

/// A shutdown ends all readers: whatever the buffer holds, none that pushes is told to wait, so a
/// reader that waited for room ends as soon as it is woken.
pub proof fn lemma_shutdown_ends_readers(
    before: SharedBuffer,
    reading: SensorReading,
    r: PushOutcome,
    after: SharedBuffer,
)
    requires
        push_gives(before, reading, false, r, after),
    ensures
        !(r is Wait),
        before.is_full() && !before.fails_on_full() ==> r is Ended,
{
}

impl SharedBuffer {
    /// How many readings fit.
    pub closed spec fn room(&self) -> usize {
        self.capacity
    }

    /// Whether a push to a full buffer fails rather than waits.
    pub closed spec fn fails_on_full(&self) -> bool {
        self.fail_on_full
    }

    /// How many readings were pushed.
    pub closed spec fn pushed(&self) -> u64 {
        self.pushed_total
    }

    /// How many readings were popped.
    pub closed spec fn popped(&self) -> u64 {
        self.popped_total
    }

    /// How many times a push had to wait.
    pub closed spec fn waits(&self) -> u64 {
        self.full_waits_total
    }

    /// Whether the buffer is full.
    pub open spec fn is_full(&self) -> bool {
        self@.len() >= self.room()
    }

    /// The buffer holds no more than fits, and what was pushed and not popped.
    pub closed spec fn wf(&self) -> bool {
        &&& self.queue@.len() <= self.capacity
        &&& (self.popped_total + self.queue@.len()) % 0x1_0000_0000_0000_0000
            == self.pushed_total
    }

    /// What holds of every buffer: it never holds more than fits, and the readings in it are
    /// those pushed and not yet popped (the counters wrap around).
    pub proof fn lemma_counts_agree(&self)
        requires
            self.wf(),
        ensures
            self@.len() <= self.room(),
            (self.popped() + self@.len()) % 0x1_0000_0000_0000_0000 == self.pushed(),
            self.popped() + self@.len() <= u64::MAX ==> self.pushed() == self.popped()
                + self@.len(),
    {
    }

    /// An empty buffer.
    pub fn new_with_policy(capacity: usize, fail_on_full: bool) -> (r: Self)
        ensures
            r.wf(),
            r@ == Seq::<SensorReading>::empty(),
            r.room() == capacity,
            r.fails_on_full() == fail_on_full,
            r.pushed() == 0,
            r.popped() == 0,
            r.waits() == 0,
    {
        SharedBuffer {
            queue: VecDeque::new(),
            capacity,
            fail_on_full,
            pushed_total: 0,
            popped_total: 0,
            full_waits_total: 0,
        }
    }

    /// Adds a reading as the newest, unless the buffer is full.
    pub fn push(&mut self, reading: SensorReading) -> (r: PushOutcome)
        requires
            old(self).wf(),
        ensures
            final(self).wf(),
            push_gives(*old(self), reading, true, r, *final(self)),
    {
        if self.queue.len() >= self.capacity {
            if self.fail_on_full {
                return PushOutcome::Overflow { len: self.queue.len(), capacity: self.capacity };
            }
            self.full_waits_total = count(self.full_waits_total);
            return PushOutcome::Wait(reading);
        }
        self.queue.push_back(reading);
        self.pushed_total = count(self.pushed_total);
        PushOutcome::Stored
    }

    /// Takes out the oldest reading.
    pub fn try_pop(&mut self) -> (r: Option<SensorReading>)
        requires
            old(self).wf(),
        ensures
            final(self).wf(),
            pop_gives(*old(self), r, *final(self)),
    {
        let ghost before = self.queue@;
        match self.queue.pop_front() {
            Some(reading) => {
                self.popped_total = count(self.popped_total);
                assert(self.queue@ =~= before.skip(1));
                Some(reading)
            },
            None => None,
        }
    }

    /// Takes out the oldest reading; nothing means to wait for one and try again.
    pub fn pop(&mut self) -> (r: Option<SensorReading>)
        requires
            old(self).wf(),
        ensures
            final(self).wf(),
            pop_gives(*old(self), r, *final(self)),
    {
        self.try_pop()
    }

    /// Takes out the oldest reading, within a time limit that is up or is not.
    pub fn pop_timeout(&mut self, time_is_up: bool) -> (r: TimedPop)
        requires
            old(self).wf(),
        ensures
            final(self).wf(),
            timed_pop_gives(*old(self), time_is_up, r, *final(self)),
    {
        match self.try_pop() {
            Some(reading) => TimedPop::Popped(reading),
            None => if time_is_up {
                TimedPop::TimedOut
            } else {
                TimedPop::Wait
            },
        }
    }

    /// The number of readings in the buffer.
    pub fn len(&self) -> (n: usize)
        ensures
            n == self@.len(),
    {
        self.queue.len()
    }

    /// How many readings fit.
    pub fn capacity(&self) -> (n: usize)
        ensures
            n == self.room(),
    {
        self.capacity
    }

    /// How many readings were pushed and popped since the start.
    pub fn totals(&self) -> (r: (u64, u64))
        ensures
            r == (self.pushed(), self.popped()),
    {
        (self.pushed_total, self.popped_total)
    }

    /// How many times a push had to wait.
    pub fn full_waits_total(&self) -> (n: u64)
        ensures
            n == self.waits(),
    {
        self.full_waits_total
    }
}

/// What was popped, and what a buffer holds, after a sequence of stored pushes (`Some`) and
/// attempts to pop (`None`).
pub open spec fn after_steps(
    held: Seq<SensorReading>,
    steps: Seq<Option<SensorReading>>,
) -> (Seq<SensorReading>, Seq<SensorReading>)
    decreases steps.len(),
{
    if steps.len() == 0 {
        (Seq::empty(), held)
    } else {
        let (taken, rest) = after_steps(held, steps.drop_last());
        match steps.last() {
            Some(reading) => (taken, rest.push(reading)),
            None => if rest.len() == 0 {
                (taken, rest)
            } else {
                (taken.push(rest[0]), rest.skip(1))
            },
        }
    }
}

/// The readings that a sequence of steps pushes.
pub open spec fn pushed_in(steps: Seq<Option<SensorReading>>) -> Seq<SensorReading>
    decreases steps.len(),
{
    if steps.len() == 0 {
        Seq::empty()
    } else {
        match steps.last() {
            Some(reading) => pushed_in(steps.drop_last()).push(reading),
            None => pushed_in(steps.drop_last()),
        }
    }
}

/// First in, first out: however pushes and pops alternate, what was popped, followed by what is
/// still held, is what was held at first, followed by what was pushed. So no reading is lost,
/// doubled or overtaken.
pub proof fn lemma_first_in_first_out(
    held: Seq<SensorReading>,
    steps: Seq<Option<SensorReading>>,
)
    ensures
        after_steps(held, steps).0 + after_steps(held, steps).1 == held + pushed_in(steps),
    decreases steps.len(),
{
    if steps.len() > 0 {
        lemma_first_in_first_out(held, steps.drop_last());
        let (taken, rest) = after_steps(held, steps.drop_last());
        match steps.last() {
            Some(reading) => {
                assert(taken + rest.push(reading) =~= (taken + rest).push(reading));
                assert(held + pushed_in(steps.drop_last()).push(reading) =~= (held + pushed_in(
                    steps.drop_last(),
                )).push(reading));
            },
            None => {
                if rest.len() > 0 {
                    assert(taken.push(rest[0]) + rest.skip(1) =~= taken + rest);
                }
            },
        }
    } else {
        assert(Seq::<SensorReading>::empty() + held =~= held + Seq::<SensorReading>::empty());
    }
}

/// The message of a buffer that fails because it is full.
pub open spec fn overflow_text(len: usize, capacity: usize) -> Seq<char> {
    "SharedBuffer overflow detected: len="@ + decimal(len as nat) + " capacity="@ + decimal(
        capacity as nat,
    )
        + ". Set a larger capacity, reduce producer rate, or disable fail-fast mode."@
}

/// Writes the message of a buffer that fails because it is full.
pub fn overflow_message(len: usize, capacity: usize) -> (r: String)
    ensures
        r@ == overflow_text(len, capacity),
{
    let mut r = "SharedBuffer overflow detected: len=".to_string();
    push_decimal(&mut r, len as u64);
    r.append(" capacity=");
    push_decimal(&mut r, capacity as u64);
    r.append(". Set a larger capacity, reduce producer rate, or disable fail-fast mode.");
    r
}

/// The length of a sensor's internal queue: now, and at most so far.
#[derive(Clone, Copy, Debug, PartialEq, Eq, Structural)]
pub struct SensorQueueSnapshot {
    pub current_len: usize,
    pub peak_len: usize,
}

/// A queue's lengths once its present length was seen.
pub open spec fn observed(s: SensorQueueSnapshot, available: usize) -> SensorQueueSnapshot {
    SensorQueueSnapshot { current_len: available, peak_len: larger(available, s.peak_len) }
}

/// A queue's lengths once a sequence of lengths was seen.
pub open spec fn observed_all(s: SensorQueueSnapshot, seen: Seq<usize>) -> SensorQueueSnapshot
    decreases seen.len(),
{
    if seen.len() == 0 {
        s
    } else {
        observed(observed_all(s, seen.drop_last()), seen.last())
    }
}

/// However many lengths are seen, the present length is the last of them, and the peak is the
/// largest of them and of the peak before: it never falls.
pub proof fn lemma_peak_is_largest_seen(s: SensorQueueSnapshot, seen: Seq<usize>)
    ensures
        observed_all(s, seen).current_len == if seen.len() == 0 {
            s.current_len
        } else {
            seen.last()
        },
        observed_all(s, seen).peak_len >= s.peak_len,
        forall|k: int|
            0 <= k < seen.len() ==> observed_all(s, seen).peak_len >= #[trigger] seen[k],
        observed_all(s, seen).peak_len == s.peak_len || seen.contains(
            observed_all(s, seen).peak_len,
        ),
    decreases seen.len(),
{
    if seen.len() > 0 {
        let init = seen.drop_last();
        lemma_peak_is_largest_seen(s, init);
        let peak = observed_all(s, seen).peak_len;
        assert forall|k: int| 0 <= k < seen.len() implies peak >= #[trigger] seen[k] by {
            if k < init.len() {
                assert(seen[k] == init[k]);
            }
        }
        if peak == seen.last() {
            assert(seen[seen.len() - 1] == peak);
        } else if peak != s.peak_len {
            let k = choose|k: int| 0 <= k < init.len() && init[k] == peak;
            assert(seen[k] == peak);
        }
    }
}

/// Whether no queue is longer than its peak.
pub open spec fn within_peaks(sensors: Map<Seq<char>, SensorQueueSnapshot>) -> bool {
    forall|id: Seq<char>| #[trigger]
        sensors.contains_key(id) ==> sensors[id].current_len <= sensors[id].peak_len
}

/// How the shared buffer is used.
#[derive(Clone, Copy, Debug, PartialEq, Eq, Structural)]
pub struct BufferUtilizationStats {
    pub len: usize,
    pub capacity: usize,
    pub pushed_total: u64,
    pub popped_total: u64,
    pub pushed_per_sec: u64,
    pub popped_per_sec: u64,
    pub full_waits_total: u64,
}

impl BufferUtilizationStats {
    /// The same numbers as telemetry.
    pub fn to_telemetry(&self) -> (r: ThroughputTelemetrySnapshot)
        ensures
            r == (ThroughputTelemetrySnapshot {
                buffer_len: self.len,
                buffer_capacity: self.capacity,
                pushed_total: self.pushed_total,
                popped_total: self.popped_total,
                pushed_per_sec: self.pushed_per_sec,
                popped_per_sec: self.popped_per_sec,
                full_waits_total: self.full_waits_total,
            }),
    {
        ThroughputTelemetrySnapshot {
            buffer_len: self.len,
            buffer_capacity: self.capacity,
            pushed_total: self.pushed_total,
            popped_total: self.popped_total,
            pushed_per_sec: self.pushed_per_sec,
            popped_per_sec: self.popped_per_sec,
            full_waits_total: self.full_waits_total,
        }
    }
}

/// `a - b`, or 0 where `b` is larger.
pub open spec fn excess(a: u64, b: u64) -> int {
    if a >= b {
        a - b
    } else {
        0
    }
}

/// How much a counter rose per second, over `dt_ms` milliseconds; 0 for less than a second.
pub open spec fn per_second(total: u64, last: u64, dt_ms: int) -> int {
    if dt_ms >= 1000 {
        (excess(total, last) * 1000) / dt_ms
    } else {
        0
    }
}

/// Computes how much a counter rose per second. The product is taken in 128 bits.
fn rate_per_second(total: u64, last: u64, dt_ms: u64) -> (r: u64)
    ensures
        r == per_second(total, last, dt_ms as int),
{
    if dt_ms >= 1000 {
        let delta: u64 = total.saturating_sub(last);
        let product: u128 = delta as u128 * 1000;
        let rate: u128 = product / dt_ms as u128;
        assert(rate <= delta) by (nonlinear_arith)
            requires
                product == delta * 1000,
                rate == product / dt_ms as u128,
                dt_ms >= 1000,
        ;
        rate as u64
    } else {
        0
    }
}

/// The counters at the last time rates were computed.
#[derive(Clone, Copy, Debug, PartialEq, Eq, Structural)]
pub struct RatesSnapshot {
    pub pushed_total: u64,
    pub popped_total: u64,
    pub at_ms: u64,
}

/// The shared buffer, the internal queue lengths of all sensors, and whether readers run.
pub struct SensorBufferManager {
    shared: SharedBuffer,
    running: bool,
    last_rates: RatesSnapshot,
    per_sensor: IdMap<SensorQueueSnapshot>,
}

impl SensorBufferManager {
    /// The shared buffer.
    pub closed spec fn buffer(&self) -> SharedBuffer {
        self.shared
    }

    /// Whether readers are to go on.
    pub closed spec fn runs(&self) -> bool {
        self.running
    }

    /// The counters at the last time rates were computed.
    pub closed spec fn rates(&self) -> RatesSnapshot {
        self.last_rates
    }

    /// The queue lengths of the registered sensors.
    pub closed spec fn sensors(&self) -> Map<Seq<char>, SensorQueueSnapshot> {
        self.per_sensor@
    }

    /// The registered sensors, by ascending identifier.
    pub closed spec fn sensor_ids(&self) -> Seq<Seq<char>> {
        self.per_sensor.ids()
    }

    /// The buffer is well formed, and no queue is longer than its peak.
    pub open spec fn wf(&self) -> bool {
        self.buffer().wf() && within_peaks(self.sensors())
    }

    /// A manager of an empty buffer that makes full pushes wait.
    pub fn new(capacity: usize, now_ms: u64) -> (r: Self)
        ensures
            r.wf(),
            r.runs(),
            r.buffer()@ == Seq::<SensorReading>::empty(),
            r.buffer().room() == capacity,
            !r.buffer().fails_on_full(),
            r.buffer().pushed() == 0,
            r.buffer().popped() == 0,
            r.buffer().waits() == 0,
            r.sensors() == Map::<Seq<char>, SensorQueueSnapshot>::empty(),
            r.rates() == (RatesSnapshot { pushed_total: 0, popped_total: 0, at_ms: now_ms }),
    {
        Self::new_with_policy(capacity, false, now_ms)
    }

    /// A manager of an empty buffer.
    pub fn new_with_policy(capacity: usize, fail_on_full: bool, now_ms: u64) -> (r: Self)
        ensures
            r.wf(),
            r.runs(),
            r.buffer()@ == Seq::<SensorReading>::empty(),
            r.buffer().room() == capacity,
            r.buffer().fails_on_full() == fail_on_full,
            r.buffer().pushed() == 0,
            r.buffer().popped() == 0,
            r.buffer().waits() == 0,
            r.sensors() == Map::<Seq<char>, SensorQueueSnapshot>::empty(),
            r.rates() == (RatesSnapshot { pushed_total: 0, popped_total: 0, at_ms: now_ms }),
    {
        SensorBufferManager {
            shared: SharedBuffer::new_with_policy(capacity, fail_on_full),
            running: true,
            last_rates: RatesSnapshot { pushed_total: 0, popped_total: 0, at_ms: now_ms },
            per_sensor: IdMap::new(),
        }
    }

    /// The shared buffer.
    pub fn shared(&self) -> (r: &SharedBuffer)
        ensures
            *r == self.buffer(),
    {
        &self.shared
    }

    /// The number of readings in the shared buffer.
    pub fn len(&self) -> (n: usize)
        ensures
            n == self.buffer()@.len(),
    {
        self.shared.len()
    }

    /// Whether readers are to go on.
    pub fn is_running(&self) -> (b: bool)
        ensures
            b == self.runs(),
    {
        self.running
    }

    /// Lists a sensor, with an empty queue; a sensor that is listed already keeps its lengths.
    pub fn register_sensor(&mut self, sensor_id: &String)
        requires
            old(self).wf(),
        ensures
            final(self).wf(),
            final(self).buffer() == old(self).buffer(),
            final(self).runs() == old(self).runs(),
            final(self).rates() == old(self).rates(),
            final(self).sensors() == if old(self).sensors().contains_key(sensor_id@) {
                old(self).sensors()
            } else {
                old(self).sensors().insert(
                    sensor_id@,
                    SensorQueueSnapshot { current_len: 0, peak_len: 0 },
                )
            },
    {
        if !self.per_sensor.contains_key(sensor_id.as_str()) {
            self.per_sensor.insert(
                sensor_id.clone(),
                SensorQueueSnapshot { current_len: 0, peak_len: 0 },
            );
        }
    }

    /// Notes the present queue length of a sensor.
    pub fn observe_available(&mut self, sensor_id: &String, available: usize)
        requires
            old(self).wf(),
        ensures
            final(self).wf(),
            final(self).buffer() == old(self).buffer(),
            final(self).runs() == old(self).runs(),
            final(self).rates() == old(self).rates(),
            final(self).sensors() == old(self).sensors().insert(
                sensor_id@,
                if old(self).sensors().contains_key(sensor_id@) {
                    observed(old(self).sensors()[sensor_id@], available)
                } else {
                    observed(SensorQueueSnapshot { current_len: 0, peak_len: 0 }, available)
                },
            ),
    {
        let peak = match self.per_sensor.get(sensor_id.as_str()) {
            Some(s) => s.peak_len,
            None => 0,
        };
        let peak_len = if available > peak {
            available
        } else {
            peak
        };
        self.per_sensor.insert(
            sensor_id.clone(),
            SensorQueueSnapshot { current_len: available, peak_len },
        );
    }

    /// The start of a reader's round: unless readers are to end, notes the present queue length
    /// of its sensor and says to read from it.
    pub fn begin_reading(&mut self, sensor_id: &String, available: usize) -> (go_on: bool)
        requires
            old(self).wf(),
        ensures
            final(self).wf(),
            go_on == old(self).runs(),
            final(self).runs() == old(self).runs(),
            final(self).buffer() == old(self).buffer(),
            final(self).rates() == old(self).rates(),
            final(self).sensors() == if !go_on {
                old(self).sensors()
            } else {
                old(self).sensors().insert(
                    sensor_id@,
                    if old(self).sensors().contains_key(sensor_id@) {
                        observed(old(self).sensors()[sensor_id@], available)
                    } else {
                        observed(SensorQueueSnapshot { current_len: 0, peak_len: 0 }, available)
                    },
                )
            },
    {
        if self.running {
            self.observe_available(sensor_id, available);
        }
        self.running
    }

    /// Adds a reading to the shared buffer; see `SharedBuffer::push`. Once readers are to end, none
    /// is told to wait for room: a reader that waits and is woken by a shutdown ends.
    pub fn push(&mut self, reading: SensorReading) -> (r: PushOutcome)
        requires
            old(self).wf(),
        ensures
            final(self).wf(),
            final(self).runs() == old(self).runs(),
            final(self).rates() == old(self).rates(),
            final(self).sensors() == old(self).sensors(),
            push_gives(old(self).buffer(), reading, old(self).runs(), r, final(self).buffer()),
    {
        let ends = !self.running && !self.shared.fail_on_full && self.shared.len()
            >= self.shared.capacity();
        if ends {
            return PushOutcome::Ended(reading);
        }
        self.shared.push(reading)
    }

    /// Takes out the oldest reading; nothing means to wait for one and try again.
    pub fn pop(&mut self) -> (r: Option<SensorReading>)
        requires
            old(self).wf(),
        ensures
            final(self).wf(),
            final(self).runs() == old(self).runs(),
            final(self).rates() == old(self).rates(),
            final(self).sensors() == old(self).sensors(),
            pop_gives(old(self).buffer(), r, final(self).buffer()),
    {
        self.shared.pop()
    }

    /// Takes out the oldest reading, within a time limit that is up or is not.
    pub fn pop_timeout(&mut self, time_is_up: bool) -> (r: TimedPop)
        requires
            old(self).wf(),
        ensures
            final(self).wf(),
            final(self).runs() == old(self).runs(),
            final(self).rates() == old(self).rates(),
            final(self).sensors() == old(self).sensors(),
            timed_pop_gives(old(self).buffer(), time_is_up, r, final(self).buffer()),
    {
        self.shared.pop_timeout(time_is_up)
    }

    /// Takes out the oldest reading, if there is one.
    pub fn try_pop(&mut self) -> (r: Option<SensorReading>)
        requires
            old(self).wf(),
        ensures
            final(self).wf(),
            final(self).runs() == old(self).runs(),
            final(self).rates() == old(self).rates(),
            final(self).sensors() == old(self).sensors(),
            pop_gives(old(self).buffer(), r, final(self).buffer()),
    {
        self.shared.try_pop()
    }

    /// How the shared buffer is used at `now_ms`, with rates since the last time at least a
    /// second before. From then on rates count from `now_ms`.
    pub fn utilization_stats(&mut self, now_ms: u64) -> (r: BufferUtilizationStats)
        requires
            old(self).wf(),
        ensures
            final(self).wf(),
            final(self).buffer() == old(self).buffer(),
            final(self).runs() == old(self).runs(),
            final(self).sensors() == old(self).sensors(),
            r.len == old(self).buffer()@.len(),
            r.capacity == old(self).buffer().room(),
            r.pushed_total == old(self).buffer().pushed(),
            r.popped_total == old(self).buffer().popped(),
            r.full_waits_total == old(self).buffer().waits(),
            r.pushed_per_sec == per_second(
                r.pushed_total,
                old(self).rates().pushed_total,
                excess(now_ms, old(self).rates().at_ms),
            ),
            r.popped_per_sec == per_second(
                r.popped_total,
                old(self).rates().popped_total,
                excess(now_ms, old(self).rates().at_ms),
            ),
            final(self).rates() == if excess(now_ms, old(self).rates().at_ms) >= 1000 {
                RatesSnapshot {
                    pushed_total: r.pushed_total,
                    popped_total: r.popped_total,
                    at_ms: now_ms,
                }
            } else {
                old(self).rates()
            },
            ({
                let base = old(self).rates();
                let dt_ms = now_ms - base.at_ms;
                let pushed: int = if r.pushed_total >= base.pushed_total {
                    r.pushed_total - base.pushed_total
                } else {
                    0
                };
                let popped: int = if r.popped_total >= base.popped_total {
                    r.popped_total - base.popped_total
                } else {
                    0
                };
                &&& dt_ms >= 1000 ==> r.pushed_per_sec * dt_ms <= pushed * 1000 < (r.pushed_per_sec
                    + 1) * dt_ms && r.popped_per_sec * dt_ms <= popped * 1000 < (r.popped_per_sec
                    + 1) * dt_ms && final(self).rates().at_ms == now_ms
                    && final(self).rates().pushed_total == r.pushed_total
                    && final(self).rates().popped_total == r.popped_total
                &&& dt_ms < 1000 ==> r.pushed_per_sec == 0 && r.popped_per_sec == 0 && final(
                    self).rates() == base
            }),
    {
        proof {
            let base = self.last_rates;
            let dt = excess(now_ms, base.at_ms);
            lemma_rate_is_whole_quotient(self.shared.pushed_total, base.pushed_total, dt);
            lemma_rate_is_whole_quotient(self.shared.popped_total, base.popped_total, dt);
        }
        let len = self.shared.len();
        let capacity = self.shared.capacity();
        let (pushed_total, popped_total) = self.shared.totals();
        let full_waits_total = self.shared.full_waits_total();
        let dt_ms = now_ms.saturating_sub(self.last_rates.at_ms);
        let pushed_per_sec = rate_per_second(pushed_total, self.last_rates.pushed_total, dt_ms);
        let popped_per_sec = rate_per_second(popped_total, self.last_rates.popped_total, dt_ms);
        if dt_ms >= 1000 {
            self.last_rates = RatesSnapshot { pushed_total, popped_total, at_ms: now_ms };
        }
        BufferUtilizationStats {
            len,
            capacity,
            pushed_total,
            popped_total,
            pushed_per_sec,
            popped_per_sec,
            full_waits_total,
        }
    }

    /// The status of every registered sensor, by ascending identifier.
    pub open spec fn status_rows(
        &self,
        per_sensor_capacity: usize,
        near_full_len: usize,
    ) -> Seq<StatusView> {
        Seq::new(
            self.sensor_ids().len(),
            |k: int|
                current_status(
                    self.sensor_ids()[k],
                    self.sensors()[self.sensor_ids()[k]].current_len,
                    self.sensors()[self.sensor_ids()[k]].peak_len,
                    per_sensor_capacity,
                    near_full_len,
                ),
        )
    }

    /// How full the internal queues are: sensors, flags and warnings by ascending identifier.
    pub fn sensor_internal_buffers_snapshot(
        &self,
        per_sensor_capacity: usize,
        near_full_len: usize,
    ) -> (r: BufferTelemetrySnapshot)
        ensures
            r@ == summarized(
                self.status_rows(per_sensor_capacity, near_full_len),
                current_depth(),
            ),
            ids_ascending(self.sensor_ids()),
            forall|id: Seq<char>| #[trigger]
                self.sensor_ids().contains(id) <==> self.sensors().contains_key(id),
    {
        let n = self.per_sensor.len();
        let ghost rows = self.status_rows(per_sensor_capacity, near_full_len);
        let mut out = empty_telemetry();
        let mut k: usize = 0;
        assert(rows.take(0) =~= Seq::empty());
        while k < n
            invariant
                k <= n,
                n == self.per_sensor.ids().len(),
                n == self.per_sensor.values().len(),
                rows == self.status_rows(per_sensor_capacity, near_full_len),
                forall|i: int|
                    0 <= i < n ==> self.per_sensor@.contains_key(
                        #[trigger] self.per_sensor.ids()[i],
                    ) && self.per_sensor@[self.per_sensor.ids()[i]] == self.per_sensor.values()[i],
                out@ == summarized(rows.take(k as int), current_depth()),
            decreases n - k,
        {
            let sensor_id = self.per_sensor.id_at(k);
            let sample = *self.per_sensor.value_at(k);
            proof {
                assert(self.per_sensor@.contains_key(self.per_sensor.ids()[k as int]));
            }
            add_current_status(
                &mut out,
                sensor_id,
                sample.current_len,
                sample.peak_len,
                per_sensor_capacity,
                near_full_len,
            );
            assert(rows.take(k as int).push(rows[k as int]) =~= rows.take(k + 1));
            k = k + 1;
        }
        assert(rows.take(k as int) =~= rows);
        out
    }

    /// Tells the readers to end.
    pub fn shutdown(&mut self)
        requires
            old(self).wf(),
        ensures
            final(self).wf(),
            !final(self).runs(),
            final(self).buffer() == old(self).buffer(),
            final(self).rates() == old(self).rates(),
            final(self).sensors() == old(self).sensors(),
    {
        self.running = false;
    }
}

/// The number after `n` is one larger, and 0 after the largest there is.
pub proof fn lemma_counted_goes_up_by_one(n: u64)
    ensures
        n < 0xffff_ffff_ffff_ffff ==> counted(n) == n + 1,
        n == 0xffff_ffff_ffff_ffff ==> counted(n) == 0,
{
}

/// A rate per second is the whole quotient of the rise and the seconds that passed, for a second
/// or more; for less there is none. In particular, after exactly one second it is the rise itself,
/// and a counter that fell did not rise.
pub proof fn lemma_rate_is_whole_quotient(total: u64, last: u64, dt_ms: int)
    requires
        0 <= dt_ms,
    ensures
        ({
            let rise: int = if total >= last {
                total - last
            } else {
                0
            };
            let r = per_second(total, last, dt_ms);
            &&& dt_ms >= 1000 ==> r * dt_ms <= rise * 1000 < (r + 1) * dt_ms
            &&& dt_ms == 1000 ==> r == rise
            &&& dt_ms < 1000 ==> r == 0
            &&& 0 <= r <= rise
        }),
{
    let rise: int = if total >= last {
        total - last
    } else {
        0
    };
    if dt_ms >= 1000 {
        let r = per_second(total, last, dt_ms);
        assert(r == (rise * 1000) / dt_ms);
        assert(r * dt_ms <= rise * 1000 < (r + 1) * dt_ms && 0 <= r <= rise) by (nonlinear_arith)
            requires
                r == (rise * 1000) / dt_ms,
                dt_ms >= 1000,
                rise >= 0,
        ;
    }
}

/// The time that passed since `b` is `a - b`; a clock that went back counts as no time passed.
pub proof fn lemma_excess_is_difference(a: u64, b: u64)
    ensures
        a >= b ==> excess(a, b) == a - b,
        a <= b ==> excess(a, b) == 0,
{
}

/// A queue's present length is the one just seen; its peak is that or the peak before, whichever
/// is larger.
pub proof fn lemma_observed_length(s: SensorQueueSnapshot, available: usize)
    ensures
        observed(s, available).current_len == available,
        observed(s, available).peak_len >= available,
        observed(s, available).peak_len >= s.peak_len,
        observed(s, available).peak_len == available || observed(s, available).peak_len
            == s.peak_len,
{
}

/// A push stores the reading behind all others exactly where fewer are held than fit; and else
/// leaves what is held as it is, and says how it goes on.
pub proof fn lemma_push_stores_while_there_is_room(
    before: SharedBuffer,
    reading: SensorReading,
    go_on: bool,
    r: PushOutcome,
    after: SharedBuffer,
)
    requires
        push_gives(before, reading, go_on, r, after),
    ensures
        r is Stored <==> before@.len() < before.room(),
        r is Stored ==> after@.len() == before@.len() + 1 && after@.last() == reading
            && after@.drop_last() == before@,
        !(r is Stored) ==> after@ == before@,
        r is Overflow <==> before@.len() >= before.room() && before.fails_on_full(),
        r is Wait <==> before@.len() >= before.room() && !before.fails_on_full() && go_on,
        r is Ended <==> before@.len() >= before.room() && !before.fails_on_full() && !go_on,
        r is Stored && before.pushed() < 0xffff_ffff_ffff_ffff ==> after.pushed()
            == before.pushed() + 1,
        !(r is Stored) ==> after.pushed() == before.pushed(),
        r is Wait && before.waits() < 0xffff_ffff_ffff_ffff ==> after.waits() == before.waits()
            + 1,
        !(r is Wait) ==> after.waits() == before.waits(),
        after.popped() == before.popped(),
        after.room() == before.room(),
        after.fails_on_full() == before.fails_on_full(),
        r matches PushOutcome::Wait(kept) ==> kept == reading,
        r matches PushOutcome::Ended(kept) ==> kept == reading,
        r matches PushOutcome::Overflow { len, capacity } ==> len == before@.len() && capacity
            == before.room(),
{
    if r is Stored {
        assert(after@.drop_last() =~= before@);
    }
}

/// A pop takes out the reading that is held longest, and leaves the others in their order; it gives
/// nothing exactly where nothing is held.
pub proof fn lemma_pop_takes_the_oldest(
    before: SharedBuffer,
    r: Option<SensorReading>,
    after: SharedBuffer,
)
    requires
        pop_gives(before, r, after),
    ensures
        r is None <==> before@.len() == 0,
        r is None ==> after@ == before@,
        r is Some ==> before@ == seq![r->0] + after@,
        r is Some && before.popped() < 0xffff_ffff_ffff_ffff ==> after.popped()
            == before.popped() + 1,
        r is None ==> after.popped() == before.popped(),
        after.pushed() == before.pushed(),
        after.waits() == before.waits(),
        after.room() == before.room(),
        after.fails_on_full() == before.fails_on_full(),
{
    if r is Some {
        assert(before@ =~= seq![r->0] + after@);
    }
}

/// A pop within a time limit gives a reading whenever there is one; without one it waits while
/// there is time.
pub proof fn lemma_timed_pop(
    before: SharedBuffer,
    time_is_up: bool,
    r: TimedPop,
    after: SharedBuffer,
)
    requires
        timed_pop_gives(before, time_is_up, r, after),
    ensures
        r is Popped <==> before@.len() > 0,
        r is Wait <==> before@.len() == 0 && !time_is_up,
        r is TimedOut <==> before@.len() == 0 && time_is_up,
        r matches TimedPop::Popped(reading) ==> before@ == seq![reading] + after@,
        !(r is Popped) ==> after@ == before@ && after.popped() == before.popped(),
        r is Popped && before.popped() < 0xffff_ffff_ffff_ffff ==> after.popped()
            == before.popped() + 1,
        after.pushed() == before.pushed(),
        after.waits() == before.waits(),
        after.room() == before.room(),
        after.fails_on_full() == before.fails_on_full(),
{
    if let TimedPop::Popped(reading) = r {
        assert(before@ =~= seq![reading] + after@);
    }
}

/// The statuses are one for each registered sensor, by ascending identifier, with its lengths. A
/// queue is full where it holds as much as it may; it is near full where it is not full and as
/// long as the limit says.
pub proof fn lemma_status_rows(m: &SensorBufferManager, capacity: usize, near_full_len: usize)
    ensures
        m.status_rows(capacity, near_full_len).len() == m.sensor_ids().len(),
        forall|k: int|
            0 <= k < m.sensor_ids().len() ==> {
                let s = #[trigger] m.status_rows(capacity, near_full_len)[k];
                let seen = m.sensors()[m.sensor_ids()[k]];
                &&& s.sensor_id == m.sensor_ids()[k]
                &&& s.current_len == seen.current_len
                &&& s.peak_len == seen.peak_len
                &&& s.capacity == capacity
                &&& s.full <==> capacity > 0 && seen.current_len >= capacity
                &&& s.near_full <==> capacity > 0 && near_full_len <= seen.current_len < capacity
            },
{
}

/// The message of a full buffer says how many readings it holds and how many it has room for.
pub proof fn lemma_overflow_text(len: usize, capacity: usize)
    ensures
        overflow_text(len, capacity) == "SharedBuffer overflow detected: len="@ + decimal(
            len as nat,
        ) + " capacity="@ + decimal(capacity as nat)
            + ". Set a larger capacity, reduce producer rate, or disable fail-fast mode."@,
{
}

/// What was pushed in a run of steps is the readings of its pushes, in order; and a run of two parts
/// takes what the first takes, then what the second takes of what the first leaves.
pub proof fn lemma_steps_of_two_runs(
    held: Seq<SensorReading>,
    a: Seq<Option<SensorReading>>,
    b: Seq<Option<SensorReading>>,
)
    ensures
        pushed_in(a) == a.filter(|s: Option<SensorReading>| s is Some).map_values(
            |s: Option<SensorReading>| s->0,
        ),
        pushed_in(a + b) == pushed_in(a) + pushed_in(b),
        after_steps(held, a + b).0 == after_steps(held, a).0 + after_steps(
            after_steps(held, a).1,
            b,
        ).0,
        after_steps(held, a + b).1 == after_steps(after_steps(held, a).1, b).1,
    decreases a.len() + b.len(),
{
    reveal(Seq::filter);
    let is_push = |s: Option<SensorReading>| s is Some;
    let value = |s: Option<SensorReading>| s->0;
    if b.len() == 0 {
        assert(a + b =~= a);
        assert(pushed_in(b) =~= Seq::empty());
        if a.len() > 0 {
            lemma_steps_of_two_runs(held, a.drop_last(), b);
            if a.last() is Some {
                assert(a.drop_last().filter(is_push).push(a.last()).map_values(value)
                    =~= a.drop_last().filter(is_push).map_values(value).push(a.last()->0));
            }
        } else {
            assert(a.filter(is_push).map_values(value) =~= Seq::empty());
        }
    } else {
        lemma_steps_of_two_runs(held, a, b.drop_last());
        assert((a + b).drop_last() =~= a + b.drop_last());
        let x = after_steps(held, a);
        let y = after_steps(x.1, b.drop_last());
        match b.last() {
            Some(reading) => {
                assert(pushed_in(a) + pushed_in(b.drop_last()).push(reading) =~= (pushed_in(a)
                    + pushed_in(b.drop_last())).push(reading));
            },
            None => {
                if y.1.len() > 0 {
                    assert(x.0 + y.0.push(y.1[0]) =~= (x.0 + y.0).push(y.1[0]));
                }
            },
        }
    }
}

} // verus!
