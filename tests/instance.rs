use com_api::error::Error;
use com_api::instance::{FindServiceSpecifier, InstanceSpecifier};

#[test]
fn test_instance_specifier_validation() {
    let valid_specifiers = [
        "/my/service",
        "/my/path/to/service_name",
        "/Service_123/AnotherPart",
        "/A",
        "/A/abc_123/Xyz",
    ];
    for spec in &valid_specifiers {
        assert!(InstanceSpecifier::check_str(spec), "Expected '{}' to be valid", spec);
    }

    let invalid_specifiers = [
        "my/service",
        "/my//service",
        "/my/service/",
        "/my/ser!vice",
        "/my/ser vice",
        "/",
        "/my/path//to/service",
        "/my/path/to//",
        "//my/service",
        "///my/service",
    ];
    for spec in &invalid_specifiers {
        assert!(!InstanceSpecifier::check_str(spec), "Expected '{}' to be invalid", spec);
    }
}

#[test]
fn empty_and_non_ascii_specifiers_are_rejected() {
    assert!(!InstanceSpecifier::check_str(""));
    assert!(!InstanceSpecifier::check_str("/caf\u{e9}"));
    assert!(!InstanceSpecifier::check_str("/a-b"));
}

#[test]
fn new_keeps_the_path_or_fails() {
    let s = InstanceSpecifier::new("/My/Funk/ServiceName").unwrap();
    assert_eq!(s.as_str(), "/My/Funk/ServiceName");
    assert!(matches!(InstanceSpecifier::new("/My//Funk"), Err(Error::Fail)));
    assert!(matches!(InstanceSpecifier::new("xpad/cp60/MapApiLanesStamped"), Err(Error::Fail)));
}

#[test]
fn specifier_equality_and_conversion() {
    let a = InstanceSpecifier::new("/a/b").unwrap();
    let b = InstanceSpecifier::new("/a/b").unwrap();
    let c = InstanceSpecifier::new("/a/c").unwrap();
    assert!(a.same_as(&b));
    assert!(!a.same_as(&c));
    assert_eq!(a.duplicate().as_str(), "/a/b");
    assert_eq!(a.to_text(), "/a/b".to_string());
    let q: FindServiceSpecifier = a.into();
    assert!(matches!(q, FindServiceSpecifier::Specific(ref i) if i.as_str() == "/a/b"));
}
