use com_api::error::Error;
use com_api::region::RegionTable;

#[test]
fn last_close_reclaims_the_region() {
    let mut t = RegionTable::new();
    assert_eq!(t.open_count("lola-0001"), 0);
    assert_eq!(t.open_or_create("lola-0001", 4096), Ok(1));
    assert_eq!(t.open_or_create("lola-0001", 4096), Ok(2));
    assert_eq!(t.open_or_create("lola-0002", 512), Ok(1));
    assert_eq!(t.open_count("lola-0001"), 2);
    assert_eq!(t.close("lola-0001"), Ok(false));
    assert_eq!(t.open_count("lola-0001"), 1);
    assert_eq!(t.close("lola-0001"), Ok(true));
    assert_eq!(t.open_count("lola-0001"), 0);
    assert_eq!(t.close("lola-0001"), Err(Error::Fail));
    assert_eq!(t.open_count("lola-0002"), 1);
}

#[test]
fn opening_with_another_size_fails() {
    let mut t = RegionTable::new();
    assert_eq!(t.open_or_create("r", 64), Ok(1));
    assert_eq!(t.open_or_create("r", 128), Err(Error::Fail));
    assert_eq!(t.open_count("r"), 1);
}
