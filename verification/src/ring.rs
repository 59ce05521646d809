//! Ring queue between one writer and one reader; when it is full, a write drops the oldest value.
use vstd::prelude::*;
use vstd::arithmetic::power2::is_pow2;
use core::marker::PhantomData;

verus! {

/// Why a ring queue cannot be made.
#[derive(Clone, Copy, Debug, PartialEq, Eq, Structural)]
pub enum QueueError {
    ZeroCapacity,
    NotPowerOfTwo,
    AllocationFailed,
}

impl QueueError {
    /// The text for this error.
    pub open spec fn text(self) -> Seq<char> {
        match self {
            QueueError::ZeroCapacity => "Capacity must be greater than 0"@,
            QueueError::NotPowerOfTwo => "Capacity must be power of 2"@,
            QueueError::AllocationFailed => "Memory allocation failed"@,
        }
    }

    /// Describes the error.
    pub fn message(&self) -> (r: String)
        ensures
            r@ == self.text(),
    {
        match self {
            QueueError::ZeroCapacity => "Capacity must be greater than 0".to_string(),
            QueueError::NotPowerOfTwo => "Capacity must be power of 2".to_string(),
            QueueError::AllocationFailed => "Memory allocation failed".to_string(),
        }
    }
}

/// Whether `n` is a power of two.
fn is_power_of_two(n: usize) -> (b: bool)
    ensures
        b == is_pow2(n as int),
{
    reveal(is_pow2);
    let mut m: usize = n;
    if m == 0 {
        return false;
    }
    while m % 2 == 0
        invariant
            m > 0,
            is_pow2(m as int) == is_pow2(n as int),
        decreases m,
    {
        reveal(is_pow2);
        m = m / 2;
    }
    m == 1
}

/// The slot `k` places after slot `start` in a ring of `n` slots.
spec fn slot_after(start: int, k: int, n: int) -> int {
    if start + k < n {
        start + k
    } else {
        start + k - n
    }
}

/// How many values a queue of `slots` slots holds at most: one less than it has slots, so that
/// a full queue differs from an empty one; but one where there is a single slot.
pub open spec fn room_in(slots: int) -> int {
    if slots == 1 {
        1
    } else {
        slots - 1
    }
}

/// The number of slots behind a queue of `capacity` slots.
fn ring_size(capacity: usize) -> (n: usize)
    requires
        capacity > 0,
    ensures
        n == room_in(capacity as int) + 1,
{
    if capacity == 1 {
        2
    } else {
        capacity
    }
}

/// Whether `count` values of `size` bytes can be addressed, and counted by an index.
fn is_addressable(count: usize, size: usize) -> (b: bool)
    ensures
        b == (count <= isize::MAX && count * size <= isize::MAX),
{
    if count > isize::MAX as usize {
        return false;
    }
    match count.checked_mul(size) {
        Some(bytes) => bytes <= isize::MAX as usize,
        None => false,
    }
}

/// The last `n` entries of `s`, or all of it where it has no more.
pub open spec fn last_entries<T>(s: Seq<T>, n: int) -> Seq<T> {
    if s.len() <= n {
        s
    } else {
        s.skip(s.len() - n)
    }
}

/// How many entries a batch of at most `max` takes.
pub open spec fn batch_len<T>(s: Seq<T>, max: int) -> int {
    if max < s.len() {
        max
    } else {
        s.len() as int
    }
}

/// A ring queue. Of the slots behind it one always stays free, so a queue of a single slot is
/// kept in two. Its view is the queued values, oldest first.
pub struct RWRoundQueue<T> {
    slots: Vec<Option<T>>,
    capacity: usize,
    read_idx: usize,
    write_idx: usize,
    split: bool,
    id: Ghost<int>,
}

impl<T> RWRoundQueue<T> {
    spec fn count(&self) -> int {
        if self.write_idx >= self.read_idx {
            self.write_idx - self.read_idx
        } else {
            self.ring() - self.read_idx + self.write_idx
        }
    }

    /// The number of slots behind the queue.
    spec fn ring(&self) -> int {
        self.slots@.len() as int
    }

    /// Which queue this is. Nothing is known of it but that it never changes and that the handles
    /// of a queue have it too: so only a queue's own handles are known to belong to it.
    pub closed spec fn identity(&self) -> int {
        self.id@
    }

    /// The number of slots that the queue was made with.
    pub closed spec fn slot_count(&self) -> int {
        self.capacity as int
    }

    /// How many values fit.
    pub open spec fn usable(&self) -> int {
        room_in(self.slot_count())
    }

    /// Whether the reader and writer handles were handed out.
    pub closed spec fn is_split(&self) -> bool {
        self.split
    }

    /// The slot that the next read takes from.
    pub closed spec fn read_slot(&self) -> int {
        self.read_idx as int
    }

    /// The slot that the next write goes to.
    pub closed spec fn write_slot(&self) -> int {
        self.write_idx as int
    }

    /// The value put in the write slot and not yet committed, if any.
    pub closed spec fn staged(&self) -> Option<T> {
        self.slots@[self.write_idx as int]
    }

    #[verifier::type_invariant]
    spec fn reads_inside(&self) -> bool {
        self.read_idx < self.slots@.len()
    }

    /// Whether the slots hold `values`, then what is staged, and nothing else, in the order in
    /// which slots are dropped.
    pub closed spec fn drops(&self, values: Seq<T>, staged: Option<T>) -> bool {
        &&& values.len() < self.ring()
        &&& forall|k: int|
            0 <= k < self.ring() ==> (#[trigger] self.slots@[k]) == if k < values.len() {
                Some(values[k])
            } else if k == values.len() {
                staged
            } else {
                None
            }
    }

    /// Queued values lie in a row around the ring, behind the write slot, and apart from what is
    /// staged there no other slot holds a value.
    pub closed spec fn wf(&self) -> bool {
        &&& self.capacity > 0
        &&& is_pow2(self.capacity as int)
        &&& self.ring() == room_in(self.capacity as int) + 1
        &&& self.read_idx < self.ring()
        &&& self.write_idx < self.ring()
        &&& forall|k: int|
            0 <= k < self.count() ==> (#[trigger] self.slots@[slot_after(
                self.read_idx as int,
                k,
                self.ring(),
            )]) is Some
        &&& forall|k: int|
            self.count() < k < self.ring() ==> (#[trigger] self.slots@[slot_after(
                self.read_idx as int,
                k,
                self.ring(),
            )]) is None
    }
}

impl<T> View for RWRoundQueue<T> {
    type V = Seq<T>;

    closed spec fn view(&self) -> Seq<T> {
        Seq::new(
            self.count() as nat,
            |k: int|
                self.slots@[slot_after(self.read_idx as int, k, self.ring())]->Some_0,
        )
    }
}

impl<T> RWRoundQueue<T> {
    /// In every queue no more values wait than fit.
    pub proof fn lemma_len_within_room(&self)
        requires
            self.wf(),
        ensures
            self@.len() <= self.usable(),
            is_pow2(self.slot_count()),
            0 < self.slot_count() <= usize::MAX,
            0 <= self.read_slot() <= self.usable(),
            0 <= self.write_slot() <= self.usable(),
    {
    }

    /// An empty queue with `capacity` slots; `capacity` must be a power of two. Where so many
    /// values cannot be addressed there is no memory for them; else the machine decides whether
    /// there is.
    pub fn new(capacity: usize) -> (r: Result<Self, QueueError>)
        ensures
            match r {
                Ok(q) => q.wf() && q@ == Seq::<T>::empty() && q.slot_count() == capacity
                    && !q.is_split() && q.staged() is None && is_pow2(capacity as int),
                Err(e) => e == (if capacity == 0 {
                    QueueError::ZeroCapacity
                } else if !is_pow2(capacity as int) {
                    QueueError::NotPowerOfTwo
                } else {
                    QueueError::AllocationFailed
                }),
            },
            capacity == 0 ==> r is Err,
            capacity > isize::MAX ==> r is Err,
            capacity * vstd::layout::size_of::<T>() > isize::MAX ==> r is Err,
    {
        let mut slots: Vec<Option<T>> = Vec::new();
        let storage = if capacity > 0 && is_power_of_two(capacity) && (!is_addressable(
            capacity,
            std::mem::size_of::<T>(),
        ) || slots.try_reserve(ring_size(capacity)).is_err()) {
            None
        } else {
            Some(slots)
        };
        Self::with_storage(capacity, storage)
    }

    /// An empty queue with `capacity` slots, kept in `storage`; `None` stands for memory that
    /// could not be had.
    pub fn with_storage(capacity: usize, storage: Option<Vec<Option<T>>>) -> (r: Result<
        Self,
        QueueError,
    >)
        ensures
            match r {
                Ok(q) => q.wf() && q@ == Seq::<T>::empty() && q.slot_count() == capacity
                    && !q.is_split() && q.staged() is None,
                Err(e) => e == (if capacity == 0 {
                    QueueError::ZeroCapacity
                } else if !is_pow2(capacity as int) {
                    QueueError::NotPowerOfTwo
                } else {
                    QueueError::AllocationFailed
                }),
            },
            r is Ok <==> is_pow2(capacity as int) && storage is Some,
            capacity == 0 ==> r is Err,
    {
        if capacity == 0 {
            reveal(is_pow2);
            return Err(QueueError::ZeroCapacity);
        }
        if !is_power_of_two(capacity) {
            return Err(QueueError::NotPowerOfTwo);
        }
        match storage {
            None => Err(QueueError::AllocationFailed),
            Some(reserved) => {
                let mut slots = reserved;
                slots.clear();
                let ring = ring_size(capacity);
                while slots.len() < ring
                    invariant
                        slots.len() <= ring,
                        forall|i: int| 0 <= i < slots.len() ==> (#[trigger] slots@[i]) is None,
                    decreases ring - slots.len(),
                {
                    slots.push(None);
                }
                let q = RWRoundQueue {
                    slots,
                    capacity,
                    read_idx: 0,
                    write_idx: 0,
                    split: false,
                    id: Ghost(arbitrary()),
                };
                assert(q@ =~= Seq::empty());
                Ok(q)
            },
        }
    }

    /// Hands out the reader and the writer of this queue. There is one of each: a queue is split
    /// at most once.
    pub fn split(&mut self) -> (r: (QueueReader<T>, QueueWriter<T>))
        requires
            old(self).wf(),
            !old(self).is_split(),
        ensures
            final(self).wf(),
            final(self).is_split(),
            final(self)@ == old(self)@,
            final(self).slot_count() == old(self).slot_count(),
            final(self).read_slot() == old(self).read_slot(),
            final(self).write_slot() == old(self).write_slot(),
            final(self).staged() == old(self).staged(),
            final(self).identity() == old(self).identity(),
            r.0.of_queue() == final(self).identity(),
            r.1.of_queue() == final(self).identity(),
    {
        self.split = true;
        (
            QueueReader { id: self.id, values: PhantomData },
            QueueWriter { id: self.id, values: PhantomData },
        )
    }

    /// The slot after `current`, around the ring.
    fn next_index(&self, current: usize) -> (r: usize)
        requires
            self.wf(),
            current < self.ring(),
        ensures
            r == (current + 1) % self.ring(),
            r == slot_after(current as int, 1, self.ring()),
    {
        proof {
            let c = self.ring();
            if current + 1 == c {
                vstd::arithmetic::div_mod::lemma_mod_self_0(c);
            } else {
                vstd::arithmetic::div_mod::lemma_small_mod((current + 1) as nat, c as nat);
            }
        }
        if current + 1 == self.slots.len() {
            0
        } else {
            current + 1
        }
    }

    /// The slot to read from, or nothing where the queue is empty.
    pub fn acquire_read_ptr(&self) -> (r: Option<usize>)
        requires
            self.wf(),
        ensures
            match r {
                Some(slot) => self@.len() > 0 && slot == self.read_slot(),
                None => self@.len() == 0,
            },
    {
        if self.read_idx == self.write_idx {
            return None;
        }
        Some(self.read_idx)
    }

    /// The oldest value, which is in the slot to read from.
    pub fn value_in(&self, slot: usize) -> (r: &T)
        requires
            self.wf(),
            self@.len() > 0,
            slot == self.read_slot(),
        ensures
            *r == self@[0],
    {
        proof {
            assert(self.slots@[slot_after(self.read_idx as int, 0, self.ring())] is Some);
        }
        match &self.slots[slot] {
            Some(value) => value,
            None => vstd::pervasive::unreached(),
        }
    }

    /// Moves on past the oldest value, which is dropped.
    pub fn commit_read(&mut self)
        requires
            old(self).wf(),
            old(self)@.len() > 0,
        ensures
            final(self).wf(),
            final(self)@ == old(self)@.skip(1),
            final(self).slot_count() == old(self).slot_count(),
            final(self).is_split() == old(self).is_split(),
            final(self).identity() == old(self).identity(),
            final(self).read_slot() == (old(self).read_slot() + 1) % (old(self).usable() + 1),
            final(self).write_slot() == old(self).write_slot(),
            final(self).staged() == old(self).staged(),
    {
        let next_read = self.next_index(self.read_idx);
        let ghost before = *self;
        let slot = self.read_idx;
        self.slots[slot] = None;
        self.read_idx = next_read;
        proof {
            self.lemma_read_advanced(before);
        }
    }

    proof fn lemma_read_advanced(&self, before: Self)
        requires
            before.wf(),
            before@.len() > 0,
            self.slots@ == before.slots@.update(before.read_idx as int, None),
            self.capacity == before.capacity,
            self.write_idx == before.write_idx,
            self.read_idx == slot_after(before.read_idx as int, 1, before.ring()),
        ensures
            self.wf(),
            self@ == before@.skip(1),
            self.staged() == before.staged(),
    {
        let c = self.ring();
        assert(self.count() == before.count() - 1);
        assert forall|k: int| 0 <= k < c - 1 implies slot_after(self.read_idx as int, k, c)
            == #[trigger] slot_after(before.read_idx as int, k + 1, c) by {}
        assert forall|k: int| 0 <= k < self.count() implies (#[trigger] self.slots@[slot_after(
            self.read_idx as int,
            k,
            c,
        )]) is Some by {
            assert(before.slots@[slot_after(before.read_idx as int, k + 1, c)] is Some);
        }
        assert forall|k: int| self.count() < k < c implies (#[trigger] self.slots@[slot_after(
            self.read_idx as int,
            k,
            c,
        )]) is None by {
            if k < c - 1 {
                assert(before.slots@[slot_after(before.read_idx as int, k + 1, c)] is None);
            }
        }
        assert(self@ =~= before@.skip(1));
    }

    /// The slot to write to, and whether a write now drops the oldest value. There always is one.
    pub fn acquire_write_ptr(&self) -> (r: Option<(usize, bool)>)
        requires
            self.wf(),
        ensures
            r matches Some((slot, was_full)) && slot == self.write_slot() && was_full == (
            self@.len() == self.usable()),
    {
        let next_write = self.next_index(self.write_idx);
        Some((self.write_idx, next_write == self.read_idx))
    }

    /// Puts `value` in the write slot, without committing it.
    pub fn fill_write_slot(&mut self, value: T)
        requires
            old(self).wf(),
        ensures
            final(self).wf(),
            final(self)@ == old(self)@,
            final(self).slot_count() == old(self).slot_count(),
            final(self).is_split() == old(self).is_split(),
            final(self).identity() == old(self).identity(),
            final(self).read_slot() == old(self).read_slot(),
            final(self).write_slot() == old(self).write_slot(),
            final(self).staged() == Some(value),
    {
        let ghost before = *self;
        let i = self.write_idx;
        self.slots[i] = Some(value);
        proof {
            let c = self.ring();
            assert forall|k: int| 0 <= k < self.count() implies slot_after(
                self.read_idx as int,
                k,
                c,
            ) != self.write_idx && #[trigger] self.slots@[slot_after(self.read_idx as int, k, c)]
                == before.slots@[slot_after(self.read_idx as int, k, c)] by {}
            assert(self@ =~= before@);
        }
    }

    /// Makes the staged value the newest, and drops the oldest where the queue was full.
    pub fn commit_write(&mut self, was_full: bool)
        requires
            old(self).wf(),
            old(self).staged() is Some,
            was_full == (old(self)@.len() == old(self).usable()),
        ensures
            final(self).wf(),
            final(self)@ == last_entries(
                old(self)@.push(old(self).staged()->Some_0),
                old(self).usable(),
            ),
            final(self).staged() is None,
            final(self).slot_count() == old(self).slot_count(),
            final(self).is_split() == old(self).is_split(),
            final(self).identity() == old(self).identity(),
            final(self).write_slot() == (old(self).write_slot() + 1) % (old(self).usable() + 1),
            final(self).read_slot() == if was_full {
                (old(self).read_slot() + 1) % (old(self).usable() + 1)
            } else {
                old(self).read_slot()
            },
    {
        let ghost before = *self;
        let ghost c = self.ring();
        let next_write = self.next_index(self.write_idx);
        let ghost value = self.staged()->Some_0;
        let ghost expected = last_entries(before@.push(value), c - 1);
        if was_full {
            let next_read = self.next_index(self.read_idx);
            self.read_idx = next_read;
            self.write_idx = next_write;
            self.slots[next_write] = None;
            proof {
                assert(self.count() == before.count());
                assert(expected.len() == before.count());
                assert forall|k: int| 0 <= k < self.count() implies slot_after(
                    self.read_idx as int,
                    k,
                    c,
                ) == #[trigger] slot_after(before.read_idx as int, k + 1, c) by {}
                assert forall|k: int| 0 <= k < self.count() implies (
                #[trigger] self.slots@[slot_after(self.read_idx as int, k, c)]) is Some && self@[k]
                    == expected[k] by {
                    if k + 1 < before.count() {
                        assert(before.slots@[slot_after(before.read_idx as int, k + 1, c)] is Some);
                    } else {
                        assert(slot_after(before.read_idx as int, k + 1, c) == before.write_idx);
                    }
                }
                assert forall|k: int| 0 <= k < self.count() implies self@[k] == expected[k] by {
                    assert(self.slots@[slot_after(self.read_idx as int, k, c)] is Some);
                }
                assert(self@ =~= expected);
            }
        } else {
            self.write_idx = next_write;
            self.slots[next_write] = None;
            proof {
                assert(self.count() == before.count() + 1);
                assert forall|k: int| 0 <= k < self.count() implies (
                #[trigger] self.slots@[slot_after(self.read_idx as int, k, c)]) is Some && self@[k]
                    == expected[k] by {
                    if k < before.count() {
                        assert(before.slots@[slot_after(before.read_idx as int, k, c)] is Some);
                    } else {
                        assert(slot_after(before.read_idx as int, k, c) == before.write_idx);
                    }
                }
                assert forall|k: int| 0 <= k < self.count() implies self@[k] == expected[k] by {
                    assert(self.slots@[slot_after(self.read_idx as int, k, c)] is Some);
                }
                assert(self@ =~= expected);
            }
        }
    }

    /// The number of queued values.
    pub fn len(&self) -> (n: usize)
        requires
            self.wf(),
        ensures
            n == self@.len(),
    {
        if self.write_idx >= self.read_idx {
            self.write_idx - self.read_idx
        } else {
            self.slots.len() - self.read_idx + self.write_idx
        }
    }

    /// Whether no value is queued.
    pub fn is_empty(&self) -> (b: bool)
        requires
            self.wf(),
        ensures
            b == (self@.len() == 0),
    {
        self.read_idx == self.write_idx
    }

    /// The number of slots that the queue was made with.
    pub fn capacity(&self) -> (n: usize)
        ensures
            n == self.slot_count(),
    {
        self.capacity
    }

    /// Takes out the oldest value.
    pub fn try_read(&mut self) -> (r: Option<T>)
        requires
            old(self).wf(),
        ensures
            final(self).wf(),
            match r {
                Some(value) => old(self)@.len() > 0 && value == old(self)@[0] && final(self)@
                    == old(self)@.skip(1),
                None => old(self)@.len() == 0 && final(self)@ == old(self)@,
            },
            final(self).staged() == old(self).staged(),
            final(self).slot_count() == old(self).slot_count(),
            final(self).is_split() == old(self).is_split(),
            final(self).identity() == old(self).identity(),
            final(self).write_slot() == old(self).write_slot(),
            final(self).read_slot() == if r is Some {
                (old(self).read_slot() + 1) % (old(self).usable() + 1)
            } else {
                old(self).read_slot()
            },
    {
        match self.acquire_read_ptr() {
            None => None,
            Some(slot) => {
                let ghost before = *self;
                proof {
                    assert(self.slots@[slot_after(
                        self.read_idx as int,
                        0,
                        self.ring(),
                    )] is Some);
                }
                let next_read = self.next_index(slot);
                let mut value: Option<T> = None;
                std::mem::swap(&mut value, &mut self.slots[slot]);
                self.read_idx = next_read;
                proof {
                    self.lemma_read_advanced(before);
                }
                value
            },
        }
    }

    /// Adds `value` as the newest, dropping the oldest where the queue is full; whether it was.
    pub fn write_overwrite(&mut self, value: T) -> (was_full: bool)
        requires
            old(self).wf(),
        ensures
            final(self).wf(),
            was_full == (old(self)@.len() == old(self).usable()),
            final(self)@ == last_entries(old(self)@.push(value), old(self).usable()),
            final(self).staged() is None,
            final(self).slot_count() == old(self).slot_count(),
            final(self).is_split() == old(self).is_split(),
            final(self).identity() == old(self).identity(),
            final(self).write_slot() == (old(self).write_slot() + 1) % (old(self).usable() + 1),
            final(self).read_slot() == if was_full {
                (old(self).read_slot() + 1) % (old(self).usable() + 1)
            } else {
                old(self).read_slot()
            },
    {
        let was_full = match self.acquire_write_ptr() {
            Some((_, was_full)) => was_full,
            None => false,
        };
        self.fill_write_slot(value);
        self.commit_write(was_full);
        was_full
    }
}

/// `[T]::rotate_left` on the slots behind a queue: the first `mid` entries move, in order, behind
/// the others. It panics only where `mid` is past the end, and opens no invariant.
#[verifier::external_body]
fn rotate_slots<T>(slots: &mut Vec<Option<T>>, mid: usize)
    requires
        mid <= old(slots)@.len(),
    ensures
        final(slots)@ == old(slots)@.skip(mid as int) + old(slots)@.take(mid as int),
    opens_invariants none
    no_unwind
{
    slots.rotate_left(mid)
}

impl<T> Drop for RWRoundQueue<T> {
    /// Puts the slots in the order in which their values are to be dropped: those that wait to be
    /// read, oldest first, and a staged one last. The vector then drops them from its first slot on,
    /// which is not part of the contract: a contract cannot speak of the drop of a value.
    fn drop(&mut self)
        ensures
            old(self).wf() ==> final(self).drops(old(self)@, old(self).staged()),
        opens_invariants none
        no_unwind
    {
        proof {
            use_type_invariant(&*self);
        }
        let ghost before = *self;
        rotate_slots(&mut self.slots, self.read_idx);
        self.read_idx = 0;
        proof {
            if before.wf() {
                let c = before.ring();
                let start = before.read_idx as int;
                assert forall|k: int| 0 <= k < c implies (#[trigger] self.slots@[k])
                    == before.slots@[slot_after(start, k, c)] by {}
                assert(slot_after(start, before.count(), c) == before.write_idx);
            }
        }
    }
}

/// The reading end of a queue.
pub struct QueueReader<T> {
    id: Ghost<int>,
    values: PhantomData<T>,
}

impl<T> QueueReader<T> {
    /// The queue that this handle belongs to.
    pub closed spec fn of_queue(&self) -> int {
        self.id@
    }

    /// Takes out the oldest value.
    pub fn read(&self, queue: &mut RWRoundQueue<T>) -> (r: Option<T>)
        requires
            old(queue).wf(),
            self.of_queue() == old(queue).identity(),
        ensures
            final(queue).wf(),
            match r {
                Some(value) => old(queue)@.len() > 0 && value == old(queue)@[0] && final(queue)@
                    == old(queue)@.skip(1),
                None => old(queue)@.len() == 0 && final(queue)@ == old(queue)@,
            },
            final(queue).slot_count() == old(queue).slot_count(),
            final(queue).is_split() == old(queue).is_split(),
            final(queue).identity() == old(queue).identity(),
            final(queue).staged() == old(queue).staged(),
            final(queue).write_slot() == old(queue).write_slot(),
            final(queue).read_slot() == if r is Some {
                (old(queue).read_slot() + 1) % (old(queue).usable() + 1)
            } else {
                old(queue).read_slot()
            },
    {
        queue.try_read()
    }

    /// Takes out up to `max` values, oldest first.
    pub fn read_batch(&self, queue: &mut RWRoundQueue<T>, max: usize) -> (r: Vec<T>)
        requires
            old(queue).wf(),
            self.of_queue() == old(queue).identity(),
        ensures
            final(queue).wf(),
            r@ == old(queue)@.take(batch_len(old(queue)@, max as int)),
            final(queue)@ == old(queue)@.skip(batch_len(old(queue)@, max as int)),
            final(queue).slot_count() == old(queue).slot_count(),
            final(queue).is_split() == old(queue).is_split(),
            final(queue).identity() == old(queue).identity(),
            final(queue).staged() == old(queue).staged(),
            final(queue).write_slot() == old(queue).write_slot(),
            final(queue).read_slot() == (old(queue).read_slot() + r@.len()) % (old(queue).usable()
                + 1),
    {
        let ghost all = queue@;
        let ghost staged = queue.staged();
        let ghost at = queue.read_slot();
        let ghost to = queue.write_slot();
        let ghost ring = queue.usable() + 1;
        proof {
            queue.lemma_len_within_room();
            vstd::arithmetic::div_mod::lemma_small_mod(at as nat, ring as nat);
        }
        let ghost slots = queue.slot_count();
        let ghost split = queue.is_split();
        let ghost id = queue.identity();
        let mut result: Vec<T> = Vec::new();
        assert(all.take(0) =~= result@);
        assert(all.skip(0) =~= all);
        let mut taken: usize = 0;
        while taken < max
            invariant
                queue.wf(),
                taken <= max,
                taken <= all.len(),
                result@ == all.take(taken as int),
                queue@ == all.skip(taken as int),
                queue.slot_count() == slots,
                queue.is_split() == split,
                queue.identity() == id,
                queue.staged() == staged,
                queue.write_slot() == to,
                queue.read_slot() == (at + result@.len()) % ring,
                ring == room_in(slots) + 1,
                ring > 1,
                self.of_queue() == id,
            ensures
                queue.wf(),
                result@ == all.take(batch_len(all, max as int)),
                queue@ == all.skip(batch_len(all, max as int)),
                queue.slot_count() == slots,
                queue.is_split() == split,
                queue.identity() == id,
                queue.staged() == staged,
                queue.write_slot() == to,
                queue.read_slot() == (at + result@.len()) % ring,
                ring == room_in(slots) + 1,
                ring > 1,
                self.of_queue() == id,
            decreases max - taken,
        {
            match self.read(queue) {
                Some(item) => {
                    proof {
                        vstd::arithmetic::div_mod::lemma_add_mod_noop(at + taken, 1, ring);
                        vstd::arithmetic::div_mod::lemma_small_mod(1, ring as nat);
                        assert(item == all[taken as int]);
                        assert(all.take(taken + 1) =~= all.take(taken as int).push(item));
                        assert(all.skip(taken as int).skip(1) =~= all.skip(taken + 1));
                    }
                    result.push(item);
                    taken = taken + 1;
                },
                None => {
                    break;
                },
            }
        }
        result
    }

    /// The number of queued values.
    pub fn len(&self, queue: &RWRoundQueue<T>) -> (n: usize)
        requires
            queue.wf(),
            self.of_queue() == queue.identity(),
        ensures
            n == queue@.len(),
    {
        queue.len()
    }

    /// Whether no value is queued.
    pub fn is_empty(&self, queue: &RWRoundQueue<T>) -> (b: bool)
        requires
            queue.wf(),
            self.of_queue() == queue.identity(),
        ensures
            b == (queue@.len() == 0),
    {
        queue.is_empty()
    }
}

/// The writing end of a queue.
pub struct QueueWriter<T> {
    id: Ghost<int>,
    values: PhantomData<T>,
}

impl<T> QueueWriter<T> {
    /// The queue that this handle belongs to.
    pub closed spec fn of_queue(&self) -> int {
        self.id@
    }

    /// The slot to write to, and whether a write now drops the oldest value.
    pub fn acquire_ptr(&self, queue: &RWRoundQueue<T>) -> (r: Option<(usize, bool)>)
        requires
            queue.wf(),
            self.of_queue() == queue.identity(),
        ensures
            r matches Some((slot, was_full)) && slot == queue.write_slot() && was_full == (
            queue@.len() == queue.usable()),
    {
        queue.acquire_write_ptr()
    }

    /// Completes a write whose value is staged.
    pub fn commit(&self, queue: &mut RWRoundQueue<T>, was_full: bool)
        requires
            old(queue).wf(),
            self.of_queue() == old(queue).identity(),
            old(queue).staged() is Some,
            was_full == (old(queue)@.len() == old(queue).usable()),
        ensures
            final(queue).wf(),
            final(queue)@ == last_entries(
                old(queue)@.push(old(queue).staged()->Some_0),
                old(queue).usable(),
            ),
            final(queue).slot_count() == old(queue).slot_count(),
            final(queue).is_split() == old(queue).is_split(),
            final(queue).identity() == old(queue).identity(),
            final(queue).staged() is None,
            final(queue).write_slot() == (old(queue).write_slot() + 1) % (old(queue).usable() + 1),
            final(queue).read_slot() == if was_full {
                (old(queue).read_slot() + 1) % (old(queue).usable() + 1)
            } else {
                old(queue).read_slot()
            },
    {
        queue.commit_write(was_full)
    }

    /// Adds `value` as the newest, dropping the oldest where the queue is full; whether it was.
    pub fn write(&self, queue: &mut RWRoundQueue<T>, value: T) -> (was_full: bool)
        requires
            old(queue).wf(),
            self.of_queue() == old(queue).identity(),
        ensures
            final(queue).wf(),
            was_full == (old(queue)@.len() == old(queue).usable()),
            final(queue)@ == last_entries(old(queue)@.push(value), old(queue).usable()),
            final(queue).slot_count() == old(queue).slot_count(),
            final(queue).is_split() == old(queue).is_split(),
            final(queue).identity() == old(queue).identity(),
            final(queue).staged() is None,
            final(queue).write_slot() == (old(queue).write_slot() + 1) % (old(queue).usable() + 1),
            final(queue).read_slot() == if was_full {
                (old(queue).read_slot() + 1) % (old(queue).usable() + 1)
            } else {
                old(queue).read_slot()
            },
    {
        queue.write_overwrite(value)
    }

    /// The number of slots of the queue.
    pub fn capacity(&self, queue: &RWRoundQueue<T>) -> (n: usize)
        requires
            self.of_queue() == queue.identity(),
        ensures
            n == queue.slot_count(),
    {
        queue.capacity()
    }
}

/// The values queued after writing all of `values` in turn, where `room` values fit.
pub open spec fn after_writes<T>(queued: Seq<T>, values: Seq<T>, room: int) -> Seq<T>
    decreases values.len(),
{
    if values.len() == 0 {
        queued
    } else {
        last_entries(after_writes(queued, values.drop_last(), room).push(values.last()), room)
    }
}

/// Any number of writes keeps the newest values in the order they were written: as many as fit.
pub proof fn lemma_writes_keep_newest<T>(queued: Seq<T>, values: Seq<T>, room: int)
    requires
        queued.len() <= room,
    ensures
        after_writes(queued, values, room) == last_entries(queued + values, room),
    decreases values.len(),
{
    if values.len() == 0 {
        assert(queued + values =~= queued);
    } else {
        let init = values.drop_last();
        lemma_writes_keep_newest(queued, init, room);
        assert((queued + init).push(values.last()) =~= queued + values);
        assert(last_entries(last_entries(queued + init, room).push(values.last()), room)
            =~= last_entries(queued + values, room));
    }
}

/// Writes that fit are read back in the order they were written.
pub proof fn lemma_reads_give_back_writes<T>(values: Seq<T>, room: int)
    requires
        values.len() <= room,
    ensures
        after_writes(Seq::empty(), values, room) == values,
{
    lemma_writes_keep_newest(Seq::empty(), values, room);
    assert(Seq::<T>::empty() + values =~= values);
}

/// Every queue holds at least one value: what was written last is never lost to its own write.
pub proof fn lemma_written_value_is_queued<T>(queued: Seq<T>, value: T, slots: int)
    requires
        0 < slots,
        queued.len() <= room_in(slots),
    ensures
        last_entries(queued.push(value), room_in(slots)).len() > 0,
        last_entries(queued.push(value), room_in(slots)).last() == value,
{
}

/// Two batches in a row take what one batch of their total size takes, and leave the same.
pub proof fn lemma_batches_add_up<T>(queued: Seq<T>, first: nat, second: nat)
    ensures
        ({
            let rest = queued.skip(batch_len(queued, first as int));
            let total = batch_len(queued, (first + second) as int);
            &&& queued.take(batch_len(queued, first as int)) + rest.take(
                batch_len(rest, second as int),
            ) == queued.take(total)
            &&& rest.skip(batch_len(rest, second as int)) == queued.skip(total)
        }),
{
    let rest = queued.skip(batch_len(queued, first as int));
    let total = batch_len(queued, (first + second) as int);
    assert(queued.take(batch_len(queued, first as int)) + rest.take(batch_len(rest, second as int))
        =~= queued.take(total));
    assert(rest.skip(batch_len(rest, second as int)) =~= queued.skip(total));
}

/// The last entries of a list are its end: as many as asked for, or all where it has no more.
pub proof fn lemma_last_entries<T>(s: Seq<T>, n: int)
    requires
        0 <= n,
    ensures
        last_entries(s, n).len() == if s.len() <= n {
            s.len() as int
        } else {
            n
        },
        forall|k: int|
            0 <= k < last_entries(s, n).len() ==> #[trigger] last_entries(s, n)[k] == s[s.len()
                - last_entries(s, n).len() + k],
{
}

/// A write to a queue with room adds the value behind all others and loses nothing; a write to a
/// full one loses the oldest value alone.
pub proof fn lemma_write_loses_at_most_the_oldest<T>(queued: Seq<T>, value: T, room: int)
    requires
        0 < room,
        queued.len() <= room,
    ensures
        queued.len() < room ==> last_entries(queued.push(value), room) == queued + seq![value],
        queued.len() == room ==> last_entries(queued.push(value), room) == queued.skip(1) + seq![
            value,
        ],
{
    if queued.len() < room {
        assert(last_entries(queued.push(value), room) =~= queued + seq![value]);
    } else {
        assert(last_entries(queued.push(value), room) =~= queued.skip(1) + seq![value]);
    }
}

/// All slots but one hold values; a queue of one slot holds one value. A batch takes what is asked
/// for, or all where there is no more.
pub proof fn lemma_room_and_batches<T>(slots: int, s: Seq<T>, max: nat)
    ensures
        slots > 1 ==> room_in(slots) == slots - 1,
        room_in(1) == 1,
        batch_len(s, max as int) <= max,
        batch_len(s, max as int) <= s.len(),
        batch_len(s, max as int) == max || batch_len(s, max as int) == s.len(),
{
}

/// What each error says.
pub proof fn lemma_what_queue_errors_say()
    ensures
        QueueError::ZeroCapacity.text() == "Capacity must be greater than 0"@,
        QueueError::NotPowerOfTwo.text() == "Capacity must be power of 2"@,
        QueueError::AllocationFailed.text() == "Memory allocation failed"@,
{
}

} // verus!
