use com_api::config::{may_read, QosClass, ServiceConfig, SlotParams};
use com_api::instance::InstanceSpecifier;

fn params(slot_count: usize, lossy: bool) -> SlotParams {
    SlotParams { slot_count, max_subscribers: 1, qos: QosClass::Qm, lossy }
}

#[test]
fn lookup_finds_the_configured_event() {
    let mut cfg = ServiceConfig::new();
    let inst = InstanceSpecifier::new("/My/Funk/ServiceName").unwrap();
    let other = InstanceSpecifier::new("/Other").unwrap();
    assert_eq!(cfg.lookup(&inst, "left_tire"), None);
    cfg.set(&inst, "left_tire", params(3, false));
    cfg.set(&inst, "exhaust", params(2, true));
    assert_eq!(cfg.lookup(&inst, "left_tire"), Some(params(3, false)));
    assert_eq!(cfg.lookup(&inst, "exhaust"), Some(params(2, true)));
    assert_eq!(cfg.lookup(&other, "left_tire"), None);
    cfg.set(&inst, "left_tire", params(5, true));
    assert_eq!(cfg.lookup(&inst, "left_tire"), Some(params(5, true)));
    assert_eq!(cfg.lookup(&inst, "exhaust"), Some(params(2, true)));
}

#[test]
fn reads_go_from_higher_to_lower_integrity_only() {
    assert!(may_read(QosClass::Qm, QosClass::Qm));
    assert!(may_read(QosClass::AsilB, QosClass::AsilB));
    assert!(may_read(QosClass::AsilB, QosClass::Qm));
    assert!(!may_read(QosClass::Qm, QosClass::AsilB));
}
