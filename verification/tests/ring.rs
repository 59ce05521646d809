use sensor_pipeline::ring::{QueueError, RWRoundQueue};
use std::cell::RefCell;
use std::rc::Rc;

/// A value that says when it is dropped.
struct Noted {
    n: u32,
    log: Rc<RefCell<Vec<u32>>>,
}

impl Drop for Noted {
    fn drop(&mut self) {
        self.log.borrow_mut().push(self.n);
    }
}

#[test]
fn capacity_must_be_a_power_of_two() {
    assert_eq!(RWRoundQueue::<u32>::new(0).err(), Some(QueueError::ZeroCapacity));
    assert_eq!(RWRoundQueue::<u32>::new(6).err(), Some(QueueError::NotPowerOfTwo));
    assert_eq!(
        RWRoundQueue::<u32>::with_storage(8, None).err(),
        Some(QueueError::AllocationFailed)
    );
    assert_eq!(RWRoundQueue::<u32>::new(8).unwrap().capacity(), 8);
    assert_eq!(QueueError::ZeroCapacity.message(), "Capacity must be greater than 0");
    assert_eq!(QueueError::NotPowerOfTwo.message(), "Capacity must be power of 2");
    assert_eq!(QueueError::AllocationFailed.message(), "Memory allocation failed");
}

#[test]
fn writes_are_read_back_in_order() {
    let mut queue = RWRoundQueue::<u32>::new(8).unwrap();
    let (reader, writer) = queue.split();
    for v in 1..=7 {
        assert!(!writer.write(&mut queue, v));
    }
    assert_eq!(reader.len(&queue), 7);
    for v in 1..=7 {
        assert_eq!(reader.read(&mut queue), Some(v));
    }
    assert_eq!(reader.read(&mut queue), None);
    assert!(reader.is_empty(&queue));
}

#[test]
fn full_queue_drops_oldest() {
    let mut queue = RWRoundQueue::<u32>::new(4).unwrap();
    let (reader, writer) = queue.split();
    for v in 1..=3 {
        assert!(!writer.write(&mut queue, v));
    }
    assert!(writer.write(&mut queue, 4));
    assert!(writer.write(&mut queue, 5));
    assert_eq!(writer.capacity(&queue), 4);
    assert_eq!(queue.len(), 3);
    assert_eq!(reader.read_batch(&mut queue, 10), vec![3, 4, 5]);
}

#[test]
fn queue_of_one_slot_holds_one_value() {
    let mut queue = RWRoundQueue::<u32>::new(1).unwrap();
    assert_eq!(queue.capacity(), 1);
    assert!(!queue.write_overwrite(5));
    assert_eq!(queue.len(), 1);
    assert_eq!(queue.try_read(), Some(5));
    assert!(queue.is_empty());
    assert_eq!(queue.try_read(), None);
}

#[test]
fn full_queue_of_one_slot_keeps_the_newest_value() {
    let mut queue = RWRoundQueue::<u32>::new(1).unwrap();
    let (reader, writer) = queue.split();
    assert!(!writer.write(&mut queue, 5));
    assert!(writer.write(&mut queue, 6));
    assert!(writer.write(&mut queue, 7));
    assert_eq!(reader.len(&queue), 1);
    assert_eq!(reader.read_batch(&mut queue, 10), vec![7]);
    let (_, was_full) = writer.acquire_ptr(&queue).unwrap();
    assert!(!was_full);
    queue.fill_write_slot(8);
    writer.commit(&mut queue, was_full);
    let (_, was_full) = writer.acquire_ptr(&queue).unwrap();
    assert!(was_full);
    queue.fill_write_slot(9);
    writer.commit(&mut queue, was_full);
    assert_eq!(reader.read(&mut queue), Some(9));
    assert_eq!(reader.read(&mut queue), None);
}

#[test]
fn written_value_is_queued_at_any_capacity() {
    for capacity in [1usize, 2, 4, 8] {
        let mut queue = RWRoundQueue::<u32>::new(capacity).unwrap();
        for v in 0..20 {
            queue.write_overwrite(v);
            assert!(!queue.is_empty());
        }
        let mut last = None;
        while let Some(v) = queue.try_read() {
            last = Some(v);
        }
        assert_eq!(last, Some(19));
    }
}

#[test]
fn batches_add_up() {
    let mut one = RWRoundQueue::<u32>::new(16).unwrap();
    let mut two = RWRoundQueue::<u32>::new(16).unwrap();
    let (r1, w1) = one.split();
    let (r2, w2) = two.split();
    for v in 0..12 {
        w1.write(&mut one, v);
        w2.write(&mut two, v);
    }
    let mut parts = r1.read_batch(&mut one, 3);
    parts.extend(r1.read_batch(&mut one, 5));
    assert_eq!(parts, r2.read_batch(&mut two, 8));
    assert_eq!(one.len(), two.len());
    assert_eq!(r1.read_batch(&mut one, 0), Vec::<u32>::new());
}

#[test]
fn staged_write_counts_once_committed() {
    let mut queue = RWRoundQueue::<String>::new(2).unwrap();
    let (reader, writer) = queue.split();
    let (_, was_full) = writer.acquire_ptr(&queue).unwrap();
    assert!(!was_full);
    queue.fill_write_slot("a".to_string());
    assert!(queue.is_empty());
    writer.commit(&mut queue, was_full);
    assert_eq!(queue.len(), 1);
    assert_eq!(queue.acquire_read_ptr(), Some(0));
    assert_eq!(reader.read(&mut queue), Some("a".to_string()));
    assert_eq!(queue.acquire_read_ptr(), None);
}

#[test]
fn indices_wrap_around_the_ring() {
    let mut queue = RWRoundQueue::<u8>::new(4).unwrap();
    let mut slots = Vec::new();
    for v in 0..10u8 {
        queue.write_overwrite(v);
        slots.push(queue.acquire_read_ptr().unwrap());
        assert_eq!(queue.try_read(), Some(v));
    }
    assert_eq!(slots, vec![0, 1, 2, 3, 0, 1, 2, 3, 0, 1]);
}

#[test]
fn unread_values_are_dropped_oldest_first() {
    let log = Rc::new(RefCell::new(Vec::new()));
    let noted = |n: u32| Noted { n, log: Rc::clone(&log) };
    let mut queue = RWRoundQueue::<Noted>::new(4).unwrap();
    for n in 1..=6 {
        queue.write_overwrite(noted(n));
    }
    assert_eq!(*log.borrow(), vec![1, 2, 3]);
    assert_eq!(queue.acquire_read_ptr(), Some(3));
    queue.fill_write_slot(noted(7));
    assert_eq!(queue.len(), 3);
    drop(queue);
    assert_eq!(*log.borrow(), vec![1, 2, 3, 4, 5, 6, 7]);
}

#[test]
fn oldest_value_can_be_looked_at_before_it_is_passed() {
    let log = Rc::new(RefCell::new(Vec::new()));
    let mut queue = RWRoundQueue::<Noted>::new(2).unwrap();
    for n in 1..=3 {
        queue.write_overwrite(Noted { n, log: Rc::clone(&log) });
        let slot = queue.acquire_read_ptr().unwrap();
        assert_eq!(queue.value_in(slot).n, n);
        assert_eq!(queue.len(), 1);
        queue.commit_read();
        assert_eq!(queue.acquire_read_ptr(), None);
        assert_eq!(*log.borrow(), (1..=n).collect::<Vec<u32>>());
    }
}

#[test]
fn capacity_that_cannot_be_addressed_fails() {
    let top = 1usize << (usize::BITS - 1);
    assert_eq!(RWRoundQueue::<u8>::new(top).err(), Some(QueueError::AllocationFailed));
    assert_eq!(RWRoundQueue::<()>::new(top).err(), Some(QueueError::AllocationFailed));
    assert_eq!(
        RWRoundQueue::<[u64; 1024]>::new(top >> 8).err(),
        Some(QueueError::AllocationFailed)
    );
}

#[test]
fn reads_leave_what_is_staged() {
    let mut queue = RWRoundQueue::<u32>::new(4).unwrap();
    let (reader, writer) = queue.split();
    writer.write(&mut queue, 1);
    writer.write(&mut queue, 2);
    let (_, was_full) = writer.acquire_ptr(&queue).unwrap();
    queue.fill_write_slot(3);
    assert_eq!(reader.read_batch(&mut queue, 5), vec![1, 2]);
    assert_eq!(queue.acquire_read_ptr(), None);
    writer.commit(&mut queue, was_full);
    assert_eq!(queue.acquire_read_ptr(), Some(2));
    assert_eq!(reader.read(&mut queue), Some(3));
}
