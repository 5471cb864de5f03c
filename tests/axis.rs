use in_one_weekend::Axis;

#[test]
fn slots_of_valid_positions() {
    assert_eq!(Axis::from_index(0), Some(Axis::X));
    assert_eq!(Axis::from_index(1), Some(Axis::Y));
    assert_eq!(Axis::from_index(2), Some(Axis::Z));
}

#[test]
fn no_slot_past_the_third() {
    assert_eq!(Axis::from_index(3), None);
    assert_eq!(Axis::from_index(4), None);
    assert_eq!(Axis::from_index(usize::MAX), None);
}
