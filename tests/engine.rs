use com_api::error::Error;
use com_api::slot::{EventBuffer, SampleRef, SlotState};

fn state(b: &EventBuffer<u32>, s: usize) -> SlotState {
    b.header(s).unwrap().state
}

fn count(b: &EventBuffer<u32>, s: usize) -> u32 {
    b.header(s).unwrap().ref_count
}

#[test]
fn fresh_buffer_is_free() {
    let b: EventBuffer<u32> = EventBuffer::new(3, 2, false);
    assert_eq!(b.capacity(), 3);
    assert_eq!(b.max_subscribers(), 2);
    assert!(!b.is_lossy());
    assert!(!b.is_offered());
    assert_eq!(b.last_sequence(), 0);
    for s in 0..3 {
        assert_eq!(state(&b, s), SlotState::Free);
        assert_eq!(count(&b, s), 0);
    }
    assert!(b.header(3).is_none());
}

#[test]
fn allocate_scans_from_the_cursor() {
    let mut b: EventBuffer<u32> = EventBuffer::new(3, 1, false);
    let a = b.allocate().unwrap();
    assert_eq!(a.slot_index(), 0);
    assert_eq!(state(&b, 0), SlotState::Writing);
    assert_eq!(count(&b, 0), 1);
    assert_eq!(b.publish(a, 7), Ok(1));
    assert_eq!(state(&b, 0), SlotState::Ready);
    assert_eq!(count(&b, 0), 0);
    assert_eq!(b.header(0).unwrap().sequence, 1);
    let a = b.allocate().unwrap();
    assert_eq!(a.slot_index(), 1);
    assert_eq!(b.publish(a, 8), Ok(2));
    assert_eq!(b.last_sequence(), 2);
}

#[test]
fn discard_frees_the_slot() {
    let mut b: EventBuffer<u32> = EventBuffer::new(2, 1, false);
    let a = b.allocate().unwrap();
    let s = a.slot_index();
    assert_eq!(b.discard(a), Ok(()));
    assert_eq!(state(&b, s), SlotState::Free);
    assert_eq!(count(&b, s), 0);
    let again = b.allocate().unwrap();
    assert_eq!(again.slot_index(), s);
}

#[test]
fn non_lossy_allocation_fails_when_full() {
    let mut b: EventBuffer<u32> = EventBuffer::new(2, 1, false);
    for v in 0..2 {
        let a = b.allocate().unwrap();
        b.publish(a, v).unwrap();
    }
    assert!(matches!(b.allocate(), Err(Error::AllocateFailed)));
}

#[test]
fn lossy_allocation_steals_the_oldest_unreferenced_slot() {
    let mut b: EventBuffer<u32> = EventBuffer::new(2, 1, true);
    b.set_offered(true);
    let r = b.attach().unwrap();
    for v in 10..12 {
        let a = b.allocate().unwrap();
        b.publish(a, v).unwrap();
    }
    // The reader holds the oldest sample, so the steal takes the other one.
    let held = b.try_acquire_next(r).unwrap();
    assert_eq!(held.sequence, 1);
    let a = b.allocate().unwrap();
    assert_eq!(a.slot_index(), 1 - held.slot);
    assert_eq!(b.publish(a, 12), Ok(3));
    // Now every slot is referenced or being read: a lossy steal needs ref_count 0.
    let y = b.try_acquire_next(r).unwrap();
    assert_eq!(y.sequence, 3);
    assert!(matches!(b.allocate(), Err(Error::AllocateFailed)));
}

#[test]
fn acquire_release_accounting() {
    let mut b: EventBuffer<u32> = EventBuffer::new(2, 2, false);
    let r0 = b.attach().unwrap();
    let r1 = b.attach().unwrap();
    assert_eq!((r0, r1), (0, 1));
    assert!(matches!(b.attach(), Err(Error::SubscribeFailed)));
    let a = b.allocate().unwrap();
    b.publish(a, 42).unwrap();
    let x0 = b.try_acquire_next(r0).unwrap();
    let x1 = b.try_acquire_next(r1).unwrap();
    assert_eq!(count(&b, x0.slot), 2);
    assert_eq!(b.value(&x0), Some(&42));
    assert!(b.try_acquire_next(r0).is_none());
    assert_eq!(b.release(x0), Ok(()));
    assert_eq!(count(&b, x1.slot), 1);
    assert_eq!(state(&b, x1.slot), SlotState::Ready);
    let s = x1.slot;
    assert_eq!(b.release(x1), Ok(()));
    assert_eq!(count(&b, s), 0);
    assert_eq!(state(&b, s), SlotState::Free);
}

#[test]
fn releasing_something_not_held_fails() {
    let mut b: EventBuffer<u32> = EventBuffer::new(2, 1, false);
    let r = b.attach().unwrap();
    let a = b.allocate().unwrap();
    b.publish(a, 1).unwrap();
    let bogus = SampleRef { reader: r, slot: 0, sequence: 1 };
    assert_eq!(b.release(bogus), Err(Error::Fail));
    let x = b.try_acquire_next(r).unwrap();
    let wrong_seq = SampleRef { reader: r, slot: x.slot, sequence: 5 };
    assert_eq!(b.release(wrong_seq), Err(Error::Fail));
    let other_reader = SampleRef { reader: 3, slot: x.slot, sequence: x.sequence };
    assert_eq!(b.release(other_reader), Err(Error::Fail));
    assert_eq!(count(&b, x.slot), 1);
    assert_eq!(b.release(x), Ok(()));
}

#[test]
fn acquisitions_come_in_sequence_order() {
    let mut b: EventBuffer<u32> = EventBuffer::new(4, 1, false);
    let r = b.attach().unwrap();
    for v in 0..4 {
        let a = b.allocate().unwrap();
        b.publish(a, v * 10).unwrap();
    }
    let mut last = 0;
    while let Some(x) = b.try_acquire_next(r) {
        assert!(x.sequence > last);
        last = x.sequence;
        assert_eq!(b.value(&x), Some(&(((x.sequence - 1) * 10) as u32)));
        b.release(x).unwrap();
    }
    assert_eq!(last, 4);
    assert_eq!(b.last_seen(r), Some(4));
}

#[test]
fn ref_count_matches_live_references() {
    let mut b: EventBuffer<u32> = EventBuffer::new(3, 3, false);
    let readers: Vec<usize> = (0..3).map(|_| b.attach().unwrap()).collect();
    let a = b.allocate().unwrap();
    let s = a.slot_index();
    assert_eq!(count(&b, s), 1);
    b.publish(a, 5).unwrap();
    let mut live = Vec::new();
    for (i, r) in readers.iter().enumerate() {
        live.push(b.try_acquire_next(*r).unwrap());
        assert_eq!(count(&b, s) as usize, i + 1);
    }
    while let Some(x) = live.pop() {
        b.release(x).unwrap();
        assert_eq!(count(&b, s) as usize, live.len());
    }
}

#[test]
fn recovery_gives_back_what_a_dead_reader_held() {
    let mut b: EventBuffer<u32> = EventBuffer::new(3, 2, false);
    let dead = b.attach().unwrap();
    let alive = b.attach().unwrap();
    for v in 0..3 {
        let a = b.allocate().unwrap();
        b.publish(a, v).unwrap();
    }
    let before: Vec<u32> = (0..3).map(|s| count(&b, s)).collect();
    let kept = b.try_acquire_next(alive).unwrap();
    let _lost1 = b.try_acquire_next(dead).unwrap();
    let _lost2 = b.try_acquire_next(dead).unwrap();
    b.recover(dead);
    assert_eq!(count(&b, kept.slot), before[kept.slot] + 1);
    for s in 0..3 {
        if s != kept.slot {
            assert_eq!(count(&b, s), before[s]);
        }
        assert_eq!(state(&b, s), SlotState::Ready);
    }
    assert!(!b.is_attached(dead));
    // A second pass changes nothing.
    b.recover(dead);
    assert_eq!(count(&b, kept.slot), before[kept.slot] + 1);
    // The log is free again.
    assert_eq!(b.attach(), Ok(dead));
}
