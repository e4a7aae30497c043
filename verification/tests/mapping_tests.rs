use almanac::{AlmanacError, Mapping};

fn block(lines: &[&str]) -> Vec<String> {
    lines.iter().map(|s| s.to_string()).collect()
}

#[test]
fn seed_to_soil_block() {
    let m = Mapping::try_from(&block(&["seed-to-soil map", "50 98 2"])).unwrap();
    assert_eq!(m.from, "seed");
    assert_eq!(m.to, "soil");
    assert_eq!(m.ranges.len(), 1);
    assert_eq!(m.ranges[0].source_start, 98);
    assert_eq!(m.ranges[0].length, 2);
    assert_eq!(m.ranges[0].offset, -48);
    assert_eq!(m.convert(98), 50);
    assert_eq!(m.convert(99), 51);
    assert_eq!(m.convert(100), 100);
    assert_eq!(m.convert(97), 97);
}

#[test]
fn unmatched_value_passes_through() {
    let m = Mapping::try_from(&block(&["a-to-b map", "50 98 2", "52 50 48"])).unwrap();
    assert_eq!(m.convert(10), 10);
    assert_eq!(m.convert(49), 49);
    assert_eq!(m.convert(100), 100);
}

#[test]
fn single_match_uses_that_rule() {
    let m = Mapping::try_from(&block(&["a-to-b map", "50 98 2", "52 50 48"])).unwrap();
    assert_eq!(m.convert(79), 81);
    assert_eq!(m.convert(55), 57);
    assert_eq!(m.convert(98), 50);
}

#[test]
fn overlap_last_rule_wins() {
    let m = Mapping::try_from(&block(&["a-to-b map", "100 10 5", "200 10 5"])).unwrap();
    assert_eq!(m.convert(12), 202);
    let n = Mapping::try_from(&block(&["a-to-b map", "200 10 5", "100 10 5"])).unwrap();
    assert_eq!(n.convert(12), 102);
}

#[test]
fn header_without_suffix_is_accepted() {
    let m = Mapping::try_from(&block(&["water-to-light"])).unwrap();
    assert_eq!(m.from, "water");
    assert_eq!(m.to, "light");
    assert_eq!(m.ranges.len(), 0);
    assert_eq!(m.convert(41), 41);
}

#[test]
fn repeated_map_suffix_is_stripped() {
    let m = Mapping::try_from(&block(&["a-to-b map map"])).unwrap();
    assert_eq!(m.from, "a");
    assert_eq!(m.to, "b");
}

#[test]
fn malformed_header_fails() {
    let r = Mapping::try_from(&block(&["seed to soil"]));
    assert_eq!(r.unwrap_err(), AlmanacError::InvalidHeader);
}

#[test]
fn header_with_empty_name_fails() {
    assert_eq!(
        Mapping::try_from(&block(&["-to-b map"])).unwrap_err(),
        AlmanacError::InvalidHeader
    );
    assert_eq!(
        Mapping::try_from(&block(&["a-to- map"])).unwrap_err(),
        AlmanacError::InvalidHeader
    );
}

#[test]
fn header_with_two_separators_fails() {
    assert_eq!(
        Mapping::try_from(&block(&["a-to-b-to-c map"])).unwrap_err(),
        AlmanacError::InvalidHeader
    );
}

#[test]
fn empty_block_fails() {
    let r = Mapping::try_from(&Vec::new());
    assert_eq!(r.unwrap_err(), AlmanacError::EmptyBlock);
}

#[test]
fn row_with_wrong_token_count_fails() {
    assert_eq!(
        Mapping::try_from(&block(&["a-to-b map", "1 2"])).unwrap_err(),
        AlmanacError::InvalidRange
    );
    assert_eq!(
        Mapping::try_from(&block(&["a-to-b map", "1 2 3 4"])).unwrap_err(),
        AlmanacError::InvalidRange
    );
}

#[test]
fn row_with_bad_token_fails() {
    assert_eq!(
        Mapping::try_from(&block(&["a-to-b map", "1 x 3"])).unwrap_err(),
        AlmanacError::InvalidRange
    );
    assert_eq!(
        Mapping::try_from(&block(&["a-to-b map", "1 2 99999999999999999999"])).unwrap_err(),
        AlmanacError::InvalidRange
    );
}

#[test]
fn row_with_empty_interval_fails() {
    assert_eq!(
        Mapping::try_from(&block(&["a-to-b map", "5 5 0"])).unwrap_err(),
        AlmanacError::InvalidRange
    );
    assert_eq!(
        Mapping::try_from(&block(&["a-to-b map", "5 5 -1"])).unwrap_err(),
        AlmanacError::InvalidRange
    );
}

#[test]
fn bad_row_aborts_whole_table() {
    let r = Mapping::try_from(&block(&["a-to-b map", "50 98 2", "1 bad 3"]));
    assert_eq!(r.unwrap_err(), AlmanacError::InvalidRange);
}

#[test]
fn negative_values_in_rows() {
    let m = Mapping::try_from(&block(&["a-to-b map", "-5 -10 3"])).unwrap();
    assert_eq!(m.convert(-10), -5);
    assert_eq!(m.convert(-8), -3);
    assert_eq!(m.convert(-7), -7);
}

#[test]
fn error_descriptions() {
    assert_eq!(AlmanacError::InvalidHeader.describe(), "invalid map header");
    assert_eq!(AlmanacError::InvalidRange.describe(), "invalid range line");
    assert_eq!(AlmanacError::EmptyBlock.describe(), "empty map block");
}
