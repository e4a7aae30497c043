use almanac::{apply_chain, convert_seeds, Mapping};

fn table(lines: &[&str]) -> Mapping {
    let block: Vec<String> = lines.iter().map(|s| s.to_string()).collect();
    Mapping::try_from(&block).unwrap()
}

#[test]
fn two_stage_chain() {
    let seed_to_soil = table(&["seed-to-soil map", "50 98 2"]);
    assert_eq!(seed_to_soil.convert(98), 50);
    let soil_to_fertilizer = table(&["soil-to-fertilizer map", "0 15 37"]);
    let maps = vec![seed_to_soil, soil_to_fertilizer];
    assert_eq!(apply_chain(98, &maps), 35);
}

#[test]
fn empty_chain_is_identity() {
    let maps: Vec<Mapping> = Vec::new();
    assert_eq!(apply_chain(5, &maps), 5);
    assert_eq!(apply_chain(-7, &maps), -7);
}

#[test]
fn chaining_in_stages_matches_one_pass() {
    for v in [0i64, 12, 14, 50, 55, 79, 98, 99, 100, -3] {
        let first_two = vec![
            table(&["seed-to-soil map", "50 98 2", "52 50 48"]),
            table(&["soil-to-fertilizer map", "0 15 37", "37 52 2", "39 0 15"]),
        ];
        let third = vec![table(&["fertilizer-to-water map", "49 53 8", "0 11 42"])];
        let all_three = vec![
            table(&["seed-to-soil map", "50 98 2", "52 50 48"]),
            table(&["soil-to-fertilizer map", "0 15 37", "37 52 2", "39 0 15"]),
            table(&["fertilizer-to-water map", "49 53 8", "0 11 42"]),
        ];
        let staged = apply_chain(apply_chain(v, &first_two), &third);
        assert_eq!(staged, apply_chain(v, &all_three));
    }
}

#[test]
fn chain_ignores_category_names() {
    let maps = vec![table(&["a-to-b map", "10 0 5"]), table(&["x-to-y map", "100 10 5"])];
    assert_eq!(apply_chain(2, &maps), 102);
}

#[test]
fn seeds_convert_independently() {
    let maps = vec![table(&["seed-to-soil map", "50 98 2", "52 50 48"])];
    let seeds = vec![79, 14, 55, 13];
    assert_eq!(convert_seeds(&seeds, &maps), vec![81, 14, 57, 13]);
}
