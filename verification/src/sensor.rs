//! A simulated sensor: a producer writes readings into a ring queue, a reader takes them out.
use vstd::prelude::*;
use vstd::arithmetic::power2::is_pow2;
use crate::models::{AccelReading, ForceReading, ThermoReading};
use crate::ring::{
    after_writes, last_entries, lemma_writes_keep_newest, room_in, QueueReader, QueueWriter,
    RWRoundQueue,
};

verus! {

/// The number of slots in a sensor's queue; one of them always stays free.
pub const MAX_QUEUE_SIZE: usize = 128;

/// A sensor that measures temperature.
pub type Thermometer = SimulatedSensor<ThermoReading>;

/// A sensor that measures acceleration.
pub type Accelerometer = SimulatedSensor<AccelReading>;

/// A sensor that measures force.
pub type ForceSensor = SimulatedSensor<ForceReading>;

/// A sensor with its queue. The writing end of the queue is with the producer while there is
/// one, and with the sensor otherwise.
pub struct SimulatedSensor<T> {
    id: String,
    rate_per_sec: u32,
    queue: RWRoundQueue<T>,
    reader: QueueReader<T>,
    writer: Option<QueueWriter<T>>,
    running: bool,
    producing: bool,
    notify_seq: u64,
}

/// The readings that wait after one more was written.
pub open spec fn with_newest<T>(waiting: Seq<T>, reading: T) -> Seq<T> {
    last_entries(waiting.push(reading), MAX_QUEUE_SIZE - 1)
}

/// What a sensor does over time: the readings that wait, whether its producer is to go on, and
/// whether it has one.
pub struct SensorState<T> {
    pub waiting: Seq<T>,
    pub runs: bool,
    pub has_producer: bool,
}

/// The state after a start: a sensor without a producer gets one, which is to go on; where there
/// is one already, nothing changes.
pub open spec fn after_start<T>(s: SensorState<T>) -> SensorState<T> {
    SensorState { runs: s.runs || !s.has_producer, has_producer: true, ..s }
}

/// The state after a request to stop.
pub open spec fn after_stop<T>(s: SensorState<T>) -> SensorState<T> {
    SensorState { runs: false, ..s }
}

/// The state once the producer has ended.
pub open spec fn after_producer_end<T>(s: SensorState<T>) -> SensorState<T> {
    SensorState { has_producer: false, ..s }
}

/// The state after a reading was produced.
pub open spec fn after_produce<T>(s: SensorState<T>, reading: T) -> SensorState<T> {
    SensorState { waiting: with_newest(s.waiting, reading), ..s }
}

/// The state after a read.
pub open spec fn after_read<T>(s: SensorState<T>) -> SensorState<T> {
    if s.waiting.len() == 0 {
        s
    } else {
        SensorState { waiting: s.waiting.skip(1), ..s }
    }
}

/// What happens to a sensor.
pub enum SensorEvent<T> {
    Start,
    Produce(T),
    Read,
    Stop,
    ProducerEnd,
}

/// Whether an event can happen: only a producer that is to go on produces, and only a producer
/// ends.
pub open spec fn can_happen<T>(s: SensorState<T>, event: SensorEvent<T>) -> bool {
    match event {
        SensorEvent::Produce(_) => s.runs && s.has_producer,
        SensorEvent::ProducerEnd => s.has_producer,
        _ => true,
    }
}

/// The state after an event.
pub open spec fn after_event<T>(s: SensorState<T>, event: SensorEvent<T>) -> SensorState<T> {
    match event {
        SensorEvent::Start => after_start(s),
        SensorEvent::Produce(reading) => after_produce(s, reading),
        SensorEvent::Read => after_read(s),
        SensorEvent::Stop => after_stop(s),
        SensorEvent::ProducerEnd => after_producer_end(s),
    }
}

/// The state after a sequence of events.
pub open spec fn after_events<T>(s: SensorState<T>, events: Seq<SensorEvent<T>>) -> SensorState<T>
    decreases events.len(),
{
    if events.len() == 0 {
        s
    } else {
        after_event(after_events(s, events.drop_last()), events.last())
    }
}

/// Whether a sequence of events can happen.
pub open spec fn can_all_happen<T>(s: SensorState<T>, events: Seq<SensorEvent<T>>) -> bool
    decreases events.len(),
{
    events.len() == 0 || (can_all_happen(s, events.drop_last()) && can_happen(
        after_events(s, events.drop_last()),
        events.last(),
    ))
}

/// How many events of a sequence are reads.
pub open spec fn reads_in<T>(events: Seq<SensorEvent<T>>) -> nat
    decreases events.len(),
{
    if events.len() == 0 {
        0
    } else {
        reads_in(events.drop_last()) + if events.last() is Read {
            1nat
        } else {
            0
        }
    }
}

/// A stop halts: until the next start no reading is produced, whatever else happens. The readings
/// that waited can still be read, in order, and each read takes one of them; once none is left,
/// none comes. A second stop changes nothing.
pub proof fn lemma_stop_halts<T>(s: SensorState<T>, events: Seq<SensorEvent<T>>)
    requires
        !s.runs,
        can_all_happen(s, events),
        forall|k: int| 0 <= k < events.len() ==> !((#[trigger] events[k]) is Start),
    ensures
        forall|k: int| 0 <= k < events.len() ==> !((#[trigger] events[k]) is Produce),
        !after_events(s, events).runs,
        after_events(s, events).waiting == s.waiting.skip(
            if reads_in(events) <= s.waiting.len() {
                reads_in(events) as int
            } else {
                s.waiting.len() as int
            },
        ),
        after_stop(after_events(s, events)) == after_events(s, events),
    decreases events.len(),
{
    if events.len() == 0 {
        assert(s.waiting.skip(0) =~= s.waiting);
    } else {
        let init = events.drop_last();
        assert forall|k: int| 0 <= k < init.len() implies !((#[trigger] init[k]) is Start) by {
            assert(events[k] == init[k]);
        }
        lemma_stop_halts(s, init);
        assert(events[events.len() - 1] == events.last());
        assert forall|k: int| 0 <= k < events.len() implies !((#[trigger] events[k]) is Produce) by {
            if k < init.len() {
                assert(events[k] == init[k]);
            }
        }
        let before = after_events(s, init).waiting;
        assert(after_events(s, events).waiting =~= s.waiting.skip(
            if reads_in(events) <= s.waiting.len() {
                reads_in(events) as int
            } else {
                s.waiting.len() as int
            },
        ));
    }
}

/// How long a producer sleeps between readings, in milliseconds.
pub fn sample_period_ms(rate_per_sec: u32) -> (r: u64)
    requires
        rate_per_sec > 0,
    ensures
        r == 1000int / rate_per_sec as int,
{
    1000 / rate_per_sec as u64
}

/// Whether a wait that looks for data again and again is over, and if so, whether data is there.
pub fn poll_for_data(available: usize, time_is_up: bool) -> (r: Option<bool>)
    ensures
        match r {
            Some(ready) => ready == (available > 0) && (available > 0 || time_is_up),
            None => available == 0 && !time_is_up,
        },
{
    if available > 0 {
        Some(true)
    } else if time_is_up {
        Some(false)
    } else {
        None
    }
}

impl<T> View for SimulatedSensor<T> {
    type V = Seq<T>;

    /// The readings that wait, oldest first.
    closed spec fn view(&self) -> Seq<T> {
        self.queue@
    }
}

impl<T> SimulatedSensor<T> {
    /// The sensor's identifier.
    pub closed spec fn name(&self) -> Seq<char> {
        self.id@
    }

    /// How many readings the producer is to write per second.
    pub closed spec fn rate(&self) -> u32 {
        self.rate_per_sec
    }

    /// Whether the producer is to go on.
    pub closed spec fn runs(&self) -> bool {
        self.running
    }

    /// Whether there is a producer.
    pub closed spec fn has_producer(&self) -> bool {
        self.producing
    }

    /// How often a reading was announced.
    pub closed spec fn announced(&self) -> u64 {
        self.notify_seq
    }

    /// The sensor's state over time.
    pub open spec fn state(&self) -> SensorState<T> {
        SensorState { waiting: self@, runs: self.runs(), has_producer: self.has_producer() }
    }

    /// The sensor's queue, to which only its own writing end belongs.
    pub closed spec fn queue_identity(&self) -> int {
        self.queue.identity()
    }

    /// The queue is well formed and has its fixed size; both ends belong to it; the writing end is
    /// in one place.
    pub closed spec fn wf(&self) -> bool {
        &&& self.queue.wf()
        &&& self.queue.slot_count() == MAX_QUEUE_SIZE
        &&& self.reader.of_queue() == self.queue.identity()
        &&& self.writer matches Some(writer) ==> writer.of_queue() == self.queue.identity()
        &&& self.producing <==> self.writer is None
    }

    /// However fast the producer is, no more than a fixed number of readings waits.
    pub proof fn lemma_queue_is_bounded(&self)
        requires
            self.wf(),
        ensures
            self@.len() < MAX_QUEUE_SIZE,
    {
        self.queue.lemma_len_within_room();
    }

    /// A sensor without readings and without a producer.
    pub fn new(id: String, rate_per_sec: u32) -> (r: Self)
        ensures
            r.wf(),
            r@ == Seq::<T>::empty(),
            r.name() == id@,
            r.rate() == rate_per_sec,
            r.runs(),
            !r.has_producer(),
            r.announced() == 0,
    {
        proof {
            reveal_with_fuel(is_pow2, 8);
            assert(is_pow2(MAX_QUEUE_SIZE as int));
        }
        match RWRoundQueue::with_storage(MAX_QUEUE_SIZE, Some(Vec::new())) {
            Ok(made) => {
                let mut queue = made;
                let (reader, writer) = queue.split();
                SimulatedSensor {
                    id,
                    rate_per_sec,
                    queue,
                    reader,
                    writer: Some(writer),
                    running: true,
                    producing: false,
                    notify_seq: 0,
                }
            },
            Err(_) => vstd::pervasive::unreached(),
        }
    }

    /// Starts production: hands out the writing end for the producer. Where there is a producer
    /// already, nothing happens.
    pub fn start_thread(&mut self) -> (r: Option<QueueWriter<T>>)
        requires
            old(self).wf(),
        ensures
            final(self).wf(),
            r is Some <==> !old(self).has_producer(),
            r matches Some(writer) ==> writer.of_queue() == final(self).queue_identity(),
            final(self).state() == after_start(old(self).state()),
            final(self).queue_identity() == old(self).queue_identity(),
            final(self).name() == old(self).name(),
            final(self).rate() == old(self).rate(),
            final(self).announced() == old(self).announced(),
    {
        if self.producing {
            return None;
        }
        self.running = true;
        self.producing = true;
        self.writer.take()
    }

    /// Starts production; see `start_thread`.
    pub fn start(&mut self) -> (r: Option<QueueWriter<T>>)
        requires
            old(self).wf(),
        ensures
            final(self).wf(),
            r is Some <==> !old(self).has_producer(),
            r matches Some(writer) ==> writer.of_queue() == final(self).queue_identity(),
            final(self).state() == after_start(old(self).state()),
            final(self).queue_identity() == old(self).queue_identity(),
            final(self).name() == old(self).name(),
            final(self).rate() == old(self).rate(),
            final(self).announced() == old(self).announced(),
    {
        self.start_thread()
    }

    /// Whether the producer is to go on.
    pub fn is_running(&self) -> (b: bool)
        ensures
            b == self.runs(),
    {
        self.running
    }

    /// How many readings the producer is to write per second.
    pub fn rate_per_sec(&self) -> (r: u32)
        ensures
            r == self.rate(),
    {
        self.rate_per_sec
    }

    /// Writes one reading, with the writing end, and announces it. In a full queue it takes the
    /// place of the oldest reading. Only a producer that is to go on does this.
    pub fn produce(&mut self, writer: &QueueWriter<T>, reading: T)
        requires
            old(self).wf(),
            old(self).runs(),
            old(self).has_producer(),
            writer.of_queue() == old(self).queue_identity(),
        ensures
            final(self).wf(),
            final(self).state() == after_produce(old(self).state(), reading),
            final(self).queue_identity() == old(self).queue_identity(),
            final(self).announced() == if old(self).announced() == u64::MAX {
                0
            } else {
                (old(self).announced() + 1) as u64
            },
            final(self).name() == old(self).name(),
            final(self).rate() == old(self).rate(),
    {
        let _ = writer.write(&mut self.queue, reading);
        self.notify_seq = if self.notify_seq == u64::MAX {
            0
        } else {
            self.notify_seq + 1
        };
    }

    /// Tells the producer to end; says whether there is one, which then has to be waited for and
    /// gives back the writing end.
    pub fn stop(&mut self) -> (r: bool)
        requires
            old(self).wf(),
        ensures
            final(self).wf(),
            r == old(self).has_producer(),
            final(self).state() == after_stop(old(self).state()),
            final(self).queue_identity() == old(self).queue_identity(),
            final(self).name() == old(self).name(),
            final(self).rate() == old(self).rate(),
            final(self).announced() == old(self).announced(),
    {
        self.running = false;
        self.producing
    }

    /// Takes back the writing end from a producer that has ended.
    pub fn producer_ended(&mut self, writer: QueueWriter<T>)
        requires
            old(self).wf(),
            old(self).has_producer(),
            writer.of_queue() == old(self).queue_identity(),
        ensures
            final(self).wf(),
            final(self).state() == after_producer_end(old(self).state()),
            final(self).queue_identity() == old(self).queue_identity(),
            final(self).name() == old(self).name(),
            final(self).rate() == old(self).rate(),
            final(self).announced() == old(self).announced(),
    {
        self.writer = Some(writer);
        self.producing = false;
    }

    /// Takes out the oldest reading.
    pub fn read(&mut self) -> (r: Option<T>)
        requires
            old(self).wf(),
        ensures
            final(self).wf(),
            match r {
                Some(reading) => old(self)@.len() > 0 && reading == old(self)@[0],
                None => old(self)@.len() == 0,
            },
            final(self).state() == after_read(old(self).state()),
            final(self).queue_identity() == old(self).queue_identity(),
            final(self).name() == old(self).name(),
            final(self).rate() == old(self).rate(),
            final(self).announced() == old(self).announced(),
    {
        self.reader.read(&mut self.queue)
    }

    /// The number of readings that wait.
    pub fn available(&self) -> (n: usize)
        requires
            self.wf(),
        ensures
            n == self@.len(),
    {
        self.reader.len(&self.queue)
    }

    /// The sensor's identifier.
    pub fn id(&self) -> (r: String)
        ensures
            r@ == self.name(),
    {
        self.id.clone()
    }

    /// How often a reading was announced.
    pub fn notify_seq(&self) -> (n: u64)
        ensures
            n == self.announced(),
    {
        self.notify_seq
    }

    /// Whether a wait for data that began when `last` readings were announced is over, and if
    /// so, whether data is there. It is over once a reading is there, was announced, or the time
    /// is up.
    pub fn wait_for_data(&self, last: u64, time_is_up: bool) -> (r: Option<bool>)
        requires
            self.wf(),
        ensures
            match r {
                Some(ready) => (self@.len() > 0 || self.announced() != last || time_is_up)
                    && ready == (self@.len() > 0),
                None => self@.len() == 0 && self.announced() == last && !time_is_up,
            },
    {
        let ready = self.available() > 0;
        if ready || self.notify_seq != last || time_is_up {
            Some(ready)
        } else {
            None
        }
    }
}

/// A restart resumes: a sensor that is stopped and started again keeps its waiting readings, and
/// what its next producer writes comes after them.
pub proof fn lemma_restart_resumes<T>(waiting: Seq<T>, readings: Seq<T>)
    requires
        waiting.len() + readings.len() < MAX_QUEUE_SIZE,
    ensures
        after_writes(waiting, readings, room_in(MAX_QUEUE_SIZE as int)) == waiting + readings,
{
    lemma_writes_keep_newest(waiting, readings, room_in(MAX_QUEUE_SIZE as int));
}

/// Each step of a sensor changes what it is for, and nothing else: a start gives a sensor without
/// a producer one that is to go on; a stop tells it to end; its end leaves none; a reading that is
/// produced comes last, and the oldest goes where 127 wait already; and a read takes the oldest.
pub proof fn lemma_steps_of_a_sensor<T>(s: SensorState<T>, reading: T)
    requires
        s.waiting.len() <= 127,
    ensures
        after_start(s).waiting == s.waiting,
        after_start(s).has_producer,
        !s.has_producer ==> after_start(s).runs,
        s.has_producer ==> after_start(s).runs == s.runs,
        after_stop(s).waiting == s.waiting && !after_stop(s).runs && after_stop(s).has_producer
            == s.has_producer,
        after_producer_end(s).waiting == s.waiting && after_producer_end(s).runs == s.runs
            && !after_producer_end(s).has_producer,
        after_produce(s, reading).runs == s.runs && after_produce(s, reading).has_producer
            == s.has_producer,
        s.waiting.len() < 127 ==> after_produce(s, reading).waiting == s.waiting + seq![reading],
        s.waiting.len() == 127 ==> after_produce(s, reading).waiting == s.waiting.skip(1) + seq![
            reading,
        ],
        after_read(s).runs == s.runs && after_read(s).has_producer == s.has_producer,
        s.waiting.len() > 0 ==> s.waiting == seq![s.waiting[0]] + after_read(s).waiting,
        s.waiting.len() == 0 ==> after_read(s).waiting == s.waiting,
{
    crate::ring::lemma_write_loses_at_most_the_oldest(s.waiting, reading, 127);
    if s.waiting.len() > 0 {
        assert(s.waiting =~= seq![s.waiting[0]] + after_read(s).waiting);
    }
}

} // verus!
