use com_api::container::SampleContainer;

#[test]
fn container_is_a_fifo() {
    let mut c: SampleContainer<u32> = SampleContainer::new();
    assert_eq!(c.sample_count(), 0);
    assert!(c.front().is_none());
    assert!(c.pop_front().is_none());
    assert!(c.push_back(1).is_ok());
    assert!(c.push_back(2).is_ok());
    assert!(c.push_back(3).is_ok());
    assert_eq!(c.sample_count(), 3);
    assert_eq!(c.front(), Some(&1));
    assert_eq!(c.get(2), Some(&3));
    assert_eq!(c.get(3), None);
    assert_eq!(c.pop_front(), Some(1));
    assert_eq!(c.front(), Some(&2));
    assert_eq!(c.sample_count(), 2);
}

#[test]
fn default_container_is_empty() {
    let c: SampleContainer<u8> = SampleContainer::default();
    assert_eq!(c.sample_count(), 0);
}
