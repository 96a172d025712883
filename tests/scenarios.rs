use com_api::container::SampleContainer;
use com_api::error::Error;
use com_api::instance::{FindServiceSpecifier, InstanceSpecifier};
use com_api::proxy::Subscriber;
use com_api::registry::ServiceRegistry;
use com_api::skeleton::{SkeletonEvent, UnOffered};
use com_api::slot::SlotState;
use com_api::vehicle::Tire;

#[test]
fn single_producer_single_consumer_ten_samples() {
    let mut registry = ServiceRegistry::new();
    let instance = InstanceSpecifier::new("/My/Funk/ServiceName").unwrap();
    let handle = registry.offer("VehicleInterface", &instance).unwrap();
    let mut left_tire = SkeletonEvent::<Tire, UnOffered>::new("left_tire", 3, 1, false).offer();

    let found = registry.find_service("VehicleInterface", &FindServiceSpecifier::Specific(instance));
    assert_eq!(found.len(), 1);
    assert!(found[0] == handle);
    let sub = Subscriber::new("left_tire").subscribe(left_tire.buffer_mut(), 3).unwrap();

    let mut buf = SampleContainer::new();
    let mut last_pressure = 0;
    // The producer sends every 100 ms and the consumer polls every 10 ms:
    // ten polls follow each send.
    for pressure in 5..=14u32 {
        left_tire.send(Tire { pressure }).unwrap();
        for _ in 0..10 {
            let n = sub.try_receive(left_tire.buffer_mut(), &mut buf, 3).unwrap();
            assert!(buf.sample_count() <= 3);
            for i in (buf.sample_count() - n)..buf.sample_count() {
                let p = left_tire.buffer_ref().value(buf.get(i).unwrap()).unwrap().pressure;
                assert!(p > last_pressure);
                last_pressure = p;
            }
        }
    }
    assert_eq!(last_pressure, 14);
}

#[test]
fn allocation_under_overload() {
    let mut ev = SkeletonEvent::<u32, UnOffered>::new("left_tire", 2, 1, false).offer();
    let _sub = Subscriber::new("left_tire").subscribe(ev.buffer_mut(), 2).unwrap();
    let first = ev.allocate();
    let second = ev.allocate();
    let third = ev.allocate();
    assert!(first.is_ok());
    assert!(second.is_ok());
    assert!(matches!(third, Err(Error::AllocateFailed)));
}

#[test]
fn lossy_overwrite() {
    let mut ev = SkeletonEvent::<u32, UnOffered>::new("left_tire", 2, 1, true).offer();
    let sub = Subscriber::new("left_tire").subscribe(ev.buffer_mut(), 2).unwrap();
    for v in 1..=3u32 {
        let a = ev.allocate().unwrap();
        ev.send_sample(a.write(v)).unwrap();
    }
    let mut buf = SampleContainer::new();
    assert_eq!(sub.try_receive(ev.buffer_mut(), &mut buf, 2), Ok(2));
    let got: Vec<u32> = (0..2)
        .map(|i| *ev.buffer_ref().value(buf.get(i).unwrap()).unwrap())
        .collect();
    assert_eq!(got, vec![2, 3]);
}

#[test]
fn discovery_of_no_instance() {
    let registry = ServiceRegistry::new();
    let q = FindServiceSpecifier::Specific(InstanceSpecifier::new("/My/Funk/ServiceName").unwrap());
    let handles = registry.find_service("VehicleInterface", &q);
    assert_eq!(handles.len(), 0);
}

#[test]
fn offer_stop_offer_cycle() {
    let mut registry = ServiceRegistry::new();
    let instance = InstanceSpecifier::new("/My/Funk/ServiceName").unwrap();
    let h1 = registry.offer("VehicleInterface", &instance).unwrap();
    let mut ev = SkeletonEvent::<u32, UnOffered>::new("left_tire", 10, 1, false).offer();
    for v in 0..5u32 {
        ev.send(v).unwrap();
    }
    assert_eq!(ev.buffer_ref().last_sequence(), 5);
    let stopped = ev.stop_offer();
    registry.stop_offer(&h1).unwrap();
    assert!(!stopped.buffer_ref().is_offered());

    let h2 = registry.offer("VehicleInterface", &instance).unwrap();
    assert!(h2.epoch() > h1.epoch());
    let mut ev = stopped.offer();
    for v in 100..105u32 {
        ev.send(v).unwrap();
    }
    let sub = Subscriber::new("left_tire").subscribe(ev.buffer_mut(), 10).unwrap();
    let mut buf = SampleContainer::new();
    assert_eq!(sub.try_receive(ev.buffer_mut(), &mut buf, 10), Ok(5));
    for i in 0..5 {
        let x = buf.get(i).unwrap();
        assert_eq!(x.sequence, i as u64 + 1);
        assert_eq!(*ev.buffer_ref().value(x).unwrap(), 100 + i as u32);
    }
}

#[test]
fn crash_recovery() {
    let mut ev = SkeletonEvent::<u32, UnOffered>::new("left_tire", 1, 1, false).offer();
    ev.send(77).unwrap();
    let crashed = Subscriber::new("left_tire").subscribe(ev.buffer_mut(), 1).unwrap();
    let held = crashed.get_new_sample(ev.buffer_mut()).unwrap().unwrap();
    let slot = held.slot;
    assert_eq!(ev.buffer_ref().header(slot).unwrap().ref_count, 1);
    // No log is left for a second consumer while the crashed one holds it.
    assert!(matches!(
        Subscriber::new("left_tire").subscribe(ev.buffer_mut(), 1),
        Err(Error::SubscribeFailed)
    ));
    // The liveness oracle reports the consumer dead: one recovery pass.
    ev.buffer_mut().recover(crashed.reader_index());
    assert_eq!(ev.buffer_ref().header(slot).unwrap().ref_count, 0);
    assert_eq!(ev.buffer_ref().header(slot).unwrap().state, SlotState::Ready);
    let fresh = Subscriber::new("left_tire").subscribe(ev.buffer_mut(), 1).unwrap();
    let got = fresh.get_new_sample(ev.buffer_mut()).unwrap().unwrap();
    assert_eq!(got.slot, slot);
    assert_eq!(ev.buffer_ref().value(&got), Some(&77));
}
