use geometer::bounding_box::BoundingBox;

#[test]
fn test_center() {
    let bb = BoundingBox::new(0, 10, 0, 6);
    let (x2, y2) = bb.doubled_center();
    let expected_center = (5.0, 3.0);
    assert_eq!((x2 as f64 / 2.0, y2 as f64 / 2.0), expected_center);
}

#[test]
fn doubled_center_of_an_odd_box_is_exact() {
    let bb = BoundingBox::new(-3, 4, 1, 2);
    assert_eq!(bb.doubled_center(), (1, 3));
}
