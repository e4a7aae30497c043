use almanac::Range;

#[test]
fn half_open_boundaries() {
    let r = Range::new(50, 98, 2);
    assert!(r.is_in_src_range(98));
    assert!(r.is_in_src_range(99));
    assert!(!r.is_in_src_range(100));
    assert!(!r.is_in_src_range(97));
}

#[test]
fn identity_outside_interval() {
    let r = Range::new(50, 98, 2);
    assert_eq!(r.convert(97), 97);
    assert_eq!(r.convert(100), 100);
    assert_eq!(r.convert(0), 0);
    assert_eq!(r.convert(-5), -5);
    assert_eq!(r.convert(i64::MIN), i64::MIN);
}

#[test]
fn offset_inside_interval() {
    let r = Range::new(50, 98, 2);
    assert_eq!(r.offset, -48);
    assert_eq!(r.source_start, 98);
    assert_eq!(r.length, 2);
    assert_eq!(r.convert(98), 50);
    assert_eq!(r.convert(99), 51);
    assert_eq!(r.convert(98) - 98, r.convert(99) - 99);
}

#[test]
fn negative_offset_rule() {
    let r = Range::new(0, 15, 37);
    assert!(r.is_in_src_range(50));
    assert_eq!(r.convert(50), 35);
    assert_eq!(r.convert(15), 0);
    assert_eq!(r.convert(51), 36);
    assert_eq!(r.convert(52), 52);
}

#[test]
fn extreme_values() {
    let top = Range::new(i64::MAX - 1, i64::MAX - 1, 1);
    assert!(top.is_in_src_range(i64::MAX - 1));
    assert!(!top.is_in_src_range(i64::MAX));
    assert_eq!(top.convert(i64::MAX - 1), i64::MAX - 1);

    let shift = Range::new(-10, 10, 1);
    assert_eq!(shift.offset, -20);
    assert_eq!(shift.convert(10), -10);
}
