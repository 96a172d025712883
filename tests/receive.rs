use com_api::config::QosClass;
use com_api::container::SampleContainer;
use com_api::error::Error;
use com_api::proxy::{ReceiveProgress, Subscriber};
use com_api::skeleton::{Offered, SkeletonEvent, UnOffered};
use com_api::slot::SampleRef;

fn offered(capacity: usize, subscribers: usize, lossy: bool) -> SkeletonEvent<u32, Offered> {
    SkeletonEvent::<u32, UnOffered>::new("left_tire", capacity, subscribers, lossy).offer()
}

fn values(ev: &SkeletonEvent<u32, Offered>, c: &SampleContainer<SampleRef>) -> Vec<u32> {
    let mut out = Vec::new();
    let mut i = 0;
    while let Some(x) = c.get(i) {
        out.push(*ev.buffer_ref().value(x).unwrap());
        i += 1;
    }
    out
}

#[test]
fn try_receive_rejects_a_cap_above_capacity() {
    let mut ev = offered(4, 1, false);
    let sub = Subscriber::new("left_tire").subscribe(ev.buffer_mut(), 2).unwrap();
    ev.send(1).unwrap();
    let mut c = SampleContainer::new();
    assert_eq!(sub.try_receive(ev.buffer_mut(), &mut c, 3), Err(Error::Fail));
    assert_eq!(c.sample_count(), 0);
    assert_eq!(sub.try_receive(ev.buffer_mut(), &mut c, 2), Ok(1));
}

#[test]
fn try_receive_rejects_foreign_samples() {
    let mut ev = offered(4, 2, false);
    let a = Subscriber::new("left_tire").subscribe(ev.buffer_mut(), 2).unwrap();
    let b = Subscriber::new("left_tire").subscribe(ev.buffer_mut(), 2).unwrap();
    ev.send(1).unwrap();
    let mut ca = SampleContainer::new();
    assert_eq!(a.try_receive(ev.buffer_mut(), &mut ca, 2), Ok(1));
    assert_eq!(b.try_receive(ev.buffer_mut(), &mut ca, 2), Err(Error::Fail));
    assert_eq!(ca.sample_count(), 1);
}

#[test]
fn try_receive_trims_then_fills_in_order() {
    let mut ev = offered(6, 1, false);
    let sub = Subscriber::new("left_tire").subscribe(ev.buffer_mut(), 3).unwrap();
    let mut c = SampleContainer::new();
    for v in 1..=5 {
        ev.send(v).unwrap();
    }
    assert_eq!(sub.try_receive(ev.buffer_mut(), &mut c, 3), Ok(3));
    assert_eq!(values(&ev, &c), vec![1, 2, 3]);
    assert_eq!(sub.try_receive(ev.buffer_mut(), &mut c, 3), Ok(2));
    assert_eq!(values(&ev, &c), vec![3, 4, 5]);
    // Nothing new: the container is still trimmed below the cap.
    assert_eq!(sub.try_receive(ev.buffer_mut(), &mut c, 3), Ok(0));
    assert_eq!(values(&ev, &c), vec![4, 5]);
    assert_eq!(sub.try_receive(ev.buffer_mut(), &mut c, 1), Ok(0));
    assert_eq!(c.sample_count(), 0);
}

#[test]
fn try_receive_with_zero_cap_empties_the_container() {
    let mut ev = offered(4, 1, false);
    let sub = Subscriber::new("left_tire").subscribe(ev.buffer_mut(), 2).unwrap();
    ev.send(1).unwrap();
    let mut c = SampleContainer::new();
    assert_eq!(sub.try_receive(ev.buffer_mut(), &mut c, 1), Ok(1));
    assert_eq!(sub.try_receive(ev.buffer_mut(), &mut c, 0), Ok(0));
    assert_eq!(c.sample_count(), 0);
}

#[test]
fn container_size_stays_within_capacity() {
    let mut ev = offered(8, 1, true);
    let sub = Subscriber::new("left_tire").subscribe(ev.buffer_mut(), 3).unwrap();
    let mut c = SampleContainer::new();
    for round in 0..20u32 {
        for v in 0..(round % 5) {
            ev.send(round * 10 + v).unwrap();
        }
        assert!(sub.try_receive(ev.buffer_mut(), &mut c, 3).unwrap() <= 3);
        assert!(c.sample_count() <= 3);
    }
}

#[test]
fn sequence_numbers_strictly_increase_for_a_subscriber() {
    let mut ev = offered(3, 1, true);
    let sub = Subscriber::new("left_tire").subscribe(ev.buffer_mut(), 2).unwrap();
    let mut c = SampleContainer::new();
    let mut last = 0u64;
    for v in 0..12u32 {
        ev.send(v).unwrap();
        if v % 3 == 0 {
            let n = sub.try_receive(ev.buffer_mut(), &mut c, 2).unwrap();
            for i in (c.sample_count() - n)..c.sample_count() {
                let x = c.get(i).unwrap();
                assert!(x.sequence > last);
                last = x.sequence;
            }
        }
    }
}

#[test]
fn send_then_receive_round_trip() {
    let mut ev = offered(2, 1, false);
    let sub = Subscriber::new("left_tire").subscribe(ev.buffer_mut(), 1).unwrap();
    let a = ev.allocate().unwrap();
    ev.send_sample(a.write(1234)).unwrap();
    let mut c = SampleContainer::new();
    assert_eq!(sub.try_receive(ev.buffer_mut(), &mut c, 1), Ok(1));
    assert_eq!(ev.buffer_ref().value(c.front().unwrap()), Some(&1234));
}

#[test]
fn resubscribing_gives_a_fresh_subscription() {
    let mut ev = offered(4, 1, false);
    let sub = Subscriber::new("left_tire").subscribe(ev.buffer_mut(), 2).unwrap();
    ev.send(1).unwrap();
    ev.send(2).unwrap();
    let mut c = SampleContainer::new();
    assert_eq!(sub.try_receive(ev.buffer_mut(), &mut c, 2), Ok(2));
    let reader = sub.reader_index();
    let subscriber = sub.unsubscribe(ev.buffer_mut());
    assert_eq!(subscriber.event_id(), "left_tire");
    for s in 0..4 {
        assert_eq!(ev.buffer_ref().header(s).unwrap().ref_count, 0);
    }
    let again = subscriber.subscribe(ev.buffer_mut(), 2).unwrap();
    assert_eq!(again.reader_index(), reader);
    assert_eq!(again.max_num_samples(), 2);
    assert_eq!(ev.buffer_ref().last_seen(reader), Some(0));
    // Fresh: it sees the ready samples from the start again.
    let mut c2 = SampleContainer::new();
    assert_eq!(again.try_receive(ev.buffer_mut(), &mut c2, 2), Ok(2));
}

#[test]
fn subscribe_fails_when_logs_are_used_up_or_not_offered() {
    let mut ev = offered(2, 1, false);
    let s = Subscriber::new("left_tire");
    let _first = s.subscribe(ev.buffer_mut(), 1).unwrap();
    assert!(matches!(s.subscribe(ev.buffer_mut(), 1), Err(Error::SubscribeFailed)));
    let mut ev2 = offered(2, 1, false);
    ev2.buffer_mut().set_offered(false);
    assert!(matches!(s.subscribe(ev2.buffer_mut(), 1), Err(Error::SubscribeFailed)));
}

#[test]
fn receive_step_resolves_when_enough_arrived() {
    let mut ev = offered(4, 1, false);
    let sub = Subscriber::new("left_tire").subscribe(ev.buffer_mut(), 3).unwrap();
    let mut c = SampleContainer::new();
    ev.send(1).unwrap();
    assert_eq!(sub.receive_step(ev.buffer_mut(), &mut c, 2, 3, 0), Ok(ReceiveProgress::Pending(1)));
    ev.send(2).unwrap();
    assert_eq!(sub.receive_step(ev.buffer_mut(), &mut c, 2, 3, 1), Ok(ReceiveProgress::Done(2)));
    assert_eq!(sub.receive_step(ev.buffer_mut(), &mut c, 2, 4, 0), Err(Error::Fail));
}

#[test]
fn get_new_sample_yields_the_next_one() {
    let mut ev = offered(4, 1, false);
    let sub = Subscriber::new("left_tire").subscribe(ev.buffer_mut(), 3).unwrap();
    assert_eq!(sub.get_new_sample(ev.buffer_mut()), Ok(None));
    ev.send(9).unwrap();
    let x = sub.get_new_sample(ev.buffer_mut()).unwrap().unwrap();
    assert_eq!(ev.buffer_ref().value(&x), Some(&9));
    assert_eq!(sub.get_new_sample(ev.buffer_mut()), Ok(None));
}

#[test]
fn subscriptions_read_only_down_the_integrity_levels() {
    let mut qm_event = offered(2, 2, false);
    let s = Subscriber::new("left_tire");
    assert!(matches!(
        s.subscribe_at(qm_event.buffer_mut(), 1, QosClass::AsilB),
        Err(Error::SubscribeFailed)
    ));
    assert!(s.subscribe_at(qm_event.buffer_mut(), 1, QosClass::Qm).is_ok());

    let mut asil_event = offered(2, 2, false);
    asil_event.buffer_mut().set_qos(QosClass::AsilB);
    assert_eq!(asil_event.buffer_ref().qos(), QosClass::AsilB);
    assert!(s.subscribe_at(asil_event.buffer_mut(), 1, QosClass::AsilB).is_ok());
    assert!(s.subscribe_at(asil_event.buffer_mut(), 1, QosClass::Qm).is_ok());
}

#[test]
fn write_default_sends_the_default_value() {
    let mut ev = offered(2, 1, false);
    let sub = Subscriber::new("left_tire").subscribe(ev.buffer_mut(), 1).unwrap();
    let a = ev.allocate().unwrap();
    ev.send_sample(a.write_default()).unwrap();
    let x = sub.get_new_sample(ev.buffer_mut()).unwrap().unwrap();
    assert_eq!(ev.buffer_ref().value(&x), Some(&0));
}

#[test]
fn receive_releases_the_samples_it_drops() {
    let mut ev = offered(4, 1, false);
    let sub = Subscriber::new("left_tire").subscribe(ev.buffer_mut(), 2).unwrap();
    for v in 1..=4 {
        ev.send(v).unwrap();
    }
    let mut c = SampleContainer::new();
    assert_eq!(sub.try_receive(ev.buffer_mut(), &mut c, 2), Ok(2));
    let first = c.get(0).unwrap().slot;
    let second = c.get(1).unwrap().slot;
    assert_eq!(ev.buffer_ref().header(first).unwrap().ref_count, 1);
    assert_eq!(sub.try_receive(ev.buffer_mut(), &mut c, 2), Ok(2));
    // Both earlier samples were dropped and released; nobody else held them.
    assert_eq!(ev.buffer_ref().header(first).unwrap().ref_count, 0);
    assert_eq!(ev.buffer_ref().header(second).unwrap().ref_count, 0);
    assert_eq!(values(&ev, &c), vec![3, 4]);
}
