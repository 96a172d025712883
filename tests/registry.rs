use com_api::error::Error;
use com_api::instance::{FindServiceSpecifier, InstanceSpecifier};
use com_api::registry::ServiceRegistry;

fn spec(s: &str) -> InstanceSpecifier {
    InstanceSpecifier::new(s).unwrap()
}

#[test]
fn discovery_of_no_instance_is_empty() {
    let reg = ServiceRegistry::new();
    let q = FindServiceSpecifier::Specific(spec("/My/Funk/ServiceName"));
    assert!(reg.find_service("VehicleInterface", &q).is_empty());
    assert!(reg.find_service("VehicleInterface", &FindServiceSpecifier::Any).is_empty());
}

#[test]
fn offer_find_and_stop() {
    let mut reg = ServiceRegistry::new();
    let h1 = reg.offer("VehicleInterface", &spec("/a")).unwrap();
    let h2 = reg.offer("VehicleInterface", &spec("/b")).unwrap();
    let _other = reg.offer("AnotherInterface", &spec("/a")).unwrap();
    assert_eq!((h1.epoch(), h2.epoch()), (1, 2));
    let all = reg.find_service("VehicleInterface", &FindServiceSpecifier::Any);
    assert_eq!(all.len(), 2);
    assert!(all[0] == h1 && all[1] == h2);
    let only_b = reg.find_service("VehicleInterface", &FindServiceSpecifier::Specific(spec("/b")));
    assert_eq!(only_b.len(), 1);
    assert_eq!(only_b[0].instance(), "/b");
    assert_eq!(only_b[0].interface_id(), "VehicleInterface");
    assert!(matches!(reg.offer("VehicleInterface", &spec("/a")), Err(Error::Fail)));
    assert!(reg.is_offered(&h1));
    assert_eq!(reg.stop_offer(&h1), Ok(()));
    assert!(!reg.is_offered(&h1));
    assert_eq!(reg.stop_offer(&h1), Err(Error::Fail));
    assert_eq!(reg.find_service("VehicleInterface", &FindServiceSpecifier::Any).len(), 1);
}

#[test]
fn reoffer_gets_a_new_epoch() {
    let mut reg = ServiceRegistry::new();
    let first = reg.offer("VehicleInterface", &spec("/a")).unwrap();
    reg.stop_offer(&first).unwrap();
    let second = reg.offer("VehicleInterface", &spec("/a")).unwrap();
    assert!(second.epoch() > first.epoch());
    assert!(!(first == second));
    assert!(second.clone_handle() == second);
    // The old handle designates a withdrawn offering.
    assert!(!reg.is_offered(&first));
    assert_eq!(reg.stop_offer(&first), Err(Error::Fail));
    let found = reg.find_service("VehicleInterface", &FindServiceSpecifier::Any);
    assert_eq!(found.len(), 1);
    assert_eq!(found[0].epoch(), second.epoch());
}
