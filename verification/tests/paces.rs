use zip_squash::Pacer;

fn strides(longer: usize, shorter: usize, steps: usize) -> Vec<usize> {
    let mut pacer = Pacer::ratio(longer, shorter);
    (0..steps).map(|_| pacer.advance()).collect()
}

#[test]
fn unit_pacer_strides_by_one() {
    let mut pacer = Pacer::unit();
    assert!(pacer.is_defined());
    for _ in 0..5 {
        assert_eq!(pacer.advance(), 1);
    }
}

#[test]
fn whole_rate_strides_by_the_rate() {
    assert_eq!(strides(10, 2, 4), vec![5, 5, 5, 5]);
    assert_eq!(strides(7, 7, 3), vec![1, 1, 1]);
}

#[test]
fn fractional_rate_rounds_up_over_what_is_left_of_the_unit() {
    // 32/3: ceil(32/3) = 11, position 352/3 leaves 1/3; ceil(32/2) = 16,
    // position 864/3 is whole again.
    assert_eq!(strides(32, 3, 3), vec![11, 16, 11]);
    // 4/3: ceil(4/3) = 2, position 8/3 leaves 2/3; ceil(4/1) = 4.
    assert_eq!(strides(4, 3, 2), vec![2, 4]);
    // 3/2: position 6/2 is whole after every step.
    assert_eq!(strides(3, 2, 3), vec![2, 2, 2]);
}

#[test]
fn ratio_over_zero_has_no_rate() {
    assert!(!Pacer::ratio(5, 0).is_defined());
    assert!(Pacer::ratio(5, 1).is_defined());
}

#[test]
fn strides_near_the_top_of_the_range_do_not_wrap() {
    let top = usize::MAX;
    // Rate top/(top - 1): the first stride is 2, and the position then
    // leaves 2/(top - 1) of a unit behind it.
    let mut pacer = Pacer::ratio(top, top - 1);
    assert_eq!(pacer.advance(), 2);
    assert_eq!(pacer.advance(), 2);
    let mut whole = Pacer::ratio(top, 1);
    assert_eq!(whole.advance(), top);
    assert_eq!(whole.advance(), top);
}
