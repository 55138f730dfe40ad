use dg4::view_mode::ViewMode;

#[test]
fn labels_name_the_two_modes() {
    assert_eq!(ViewMode::Fit.label(), "Fit");
    assert_eq!(ViewMode::FixedZoom.label(), "Fixed Zoom");
}

#[test]
fn modes_compare_by_variant() {
    assert_eq!(ViewMode::Fit, ViewMode::Fit);
    assert_ne!(ViewMode::Fit, ViewMode::FixedZoom);
    let copy = ViewMode::FixedZoom;
    assert_eq!(copy, ViewMode::FixedZoom);
    assert_eq!(format!("{:?}", copy), "FixedZoom");
}
