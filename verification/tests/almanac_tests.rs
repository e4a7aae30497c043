use almanac::{apply_chain, read_data, read_maps, read_seeds, AlmanacError};

fn doc(lines: &[&str]) -> Vec<String> {
    lines.iter().map(|s| s.to_string()).collect()
}

#[test]
fn seeds_header_line() {
    let seeds = read_seeds(&doc(&["seeds: 79 14 55 13"])).unwrap();
    assert_eq!(seeds, vec![79, 14, 55, 13]);
}

#[test]
fn seeds_extreme_and_signed() {
    let seeds = read_seeds(&doc(&["seeds: -9223372036854775808 9223372036854775807 +5"]))
        .unwrap();
    assert_eq!(seeds, vec![i64::MIN, i64::MAX, 5]);
}

#[test]
fn seeds_out_of_range_token_fails() {
    let r = read_seeds(&doc(&["seeds: 9223372036854775808"]));
    assert_eq!(r.unwrap_err(), AlmanacError::InvalidRange);
}

#[test]
fn seeds_bad_token_fails() {
    let r = read_seeds(&doc(&["seeds: 79 x 13"]));
    assert_eq!(r.unwrap_err(), AlmanacError::InvalidRange);
}

#[test]
fn repeated_seeds_prefix_is_stripped() {
    let seeds = read_seeds(&doc(&["seeds: seeds: 5"])).unwrap();
    assert_eq!(seeds, vec![5]);
}

#[test]
fn seeds_line_with_no_numbers() {
    assert_eq!(read_seeds(&doc(&["seeds: "])).unwrap(), Vec::<i64>::new());
    assert_eq!(read_seeds(&doc(&["seeds:"])).unwrap_err(), AlmanacError::InvalidRange);
}

#[test]
fn whole_almanac() {
    let lines = doc(&[
        "seeds: 79 14 55 13",
        "",
        "seed-to-soil map",
        "50 98 2",
        "52 50 48",
        "",
        "soil-to-fertilizer map",
        "0 15 37",
        "37 52 2",
        "39 0 15",
    ]);
    let data = read_data(&lines).unwrap();
    assert_eq!(data.seeds, vec![79, 14, 55, 13]);
    assert_eq!(data.maps.len(), 2);
    assert_eq!(data.maps[0].from, "seed");
    assert_eq!(data.maps[0].to, "soil");
    assert_eq!(data.maps[1].from, "soil");
    assert_eq!(data.maps[1].to, "fertilizer");
    assert_eq!(apply_chain(79, &data.maps), 81);
    assert_eq!(apply_chain(14, &data.maps), 53);
}

#[test]
fn almanac_without_maps() {
    let data = read_data(&doc(&["seeds: 1 2"])).unwrap();
    assert_eq!(data.seeds, vec![1, 2]);
    assert_eq!(data.maps.len(), 0);
}

#[test]
fn trailing_blank_line_is_harmless() {
    let maps = read_maps(&doc(&["seeds: 1", "", "a-to-b map", "1 2 3", ""])).unwrap();
    assert_eq!(maps.len(), 1);
    assert_eq!(maps[0].from, "a");
}

#[test]
fn consecutive_blank_lines_make_an_empty_block() {
    let r = read_maps(&doc(&["seeds: 1", "", "a-to-b map", "1 2 3", "", "", "c-to-d map", "1 2 3"]));
    assert_eq!(r.unwrap_err(), AlmanacError::EmptyBlock);
}

#[test]
fn first_bad_block_aborts() {
    let r = read_maps(&doc(&["seeds: 1", "", "a-to-b map", "1 2 3", "", "c-to-d map", "1 2"]));
    assert_eq!(r.unwrap_err(), AlmanacError::InvalidRange);
}

#[test]
fn map_errors_take_precedence_over_seed_errors() {
    let r = read_data(&doc(&["seeds: x", "", "bad header", "1 2 3"]));
    assert_eq!(r.unwrap_err(), AlmanacError::InvalidHeader);
    let r2 = read_data(&doc(&["seeds: x"]));
    assert_eq!(r2.unwrap_err(), AlmanacError::InvalidRange);
}
