use puzzles::pipeline::{Interval, Pipeline, Range, Seeds, Stage, ValueSet};

const EXAMPLE: &str = "seeds: 79 14 55 13\n\nseed-to-soil map:\n50 98 2\n52 50 48\n\nsoil-to-fertilizer map:\n0 15 37\n37 52 2\n39 0 15\n\nfertilizer-to-water map:\n49 53 8\n0 11 42\n42 0 7\n57 7 4\n\nwater-to-light map:\n88 18 7\n18 25 70\n\nlight-to-temperature map:\n45 77 23\n81 45 19\n68 64 13\n\ntemperature-to-humidity map:\n0 69 1\n1 0 69\n\nhumidity-to-location map:\n60 56 37\n56 93 4\n";

fn stage_98_to_50() -> Stage {
    let r = Range::new(50, 98, 2).unwrap();
    Stage::new(String::from("seed"), String::from("soil"), vec![r]).unwrap()
}

#[test]
fn single_stage_translates_and_passes_through() {
    let stage = stage_98_to_50();
    assert_eq!(stage.apply(98), 50);
    assert_eq!(stage.apply(99), 51);
    assert_eq!(stage.apply(97), 97);
}

#[test]
fn chained_inverse_stages_compose_to_identity() {
    let up = Range::new(98, 50, 2).unwrap();
    let first = Stage::new(String::from("seed"), String::from("soil"), vec![up]).unwrap();
    let second = stage_98_to_50();
    let p = Pipeline { stages: vec![first, second] };
    // [50,52) -> [98,100), then [98,100) -> [50,52)
    assert_eq!(p.translate_value(50), 50);
    assert_eq!(p.translate_value(51), 51);
    assert_eq!(p.translate_value(7), 7);
}

#[test]
fn set_through_stage_keeps_total_measure() {
    let r = Range::new(52, 50, 48).unwrap();
    let stage = Stage::new(String::from("seed"), String::from("soil"), vec![r]).unwrap();
    let input = ValueSet { intervals: vec![Interval::new(79, 14).unwrap()] };
    let out = stage.apply_to_set(&input);
    let total: u64 = out.intervals.iter().map(|iv| iv.length).sum();
    assert_eq!(total, 14);
    // [79,93) lies inside [50,98), so it lands shifted at [81,95)
    assert_eq!(out.intervals.len(), 1);
    assert_eq!(out.intervals[0].start, 81);
    assert_eq!(out.intervals[0].length, 14);
}

#[test]
fn minimum_over_huge_domain_without_enumeration() {
    let r = Range::new(5, 1_000_000_000, 1_000_000_000).unwrap();
    let stage = Stage::new(String::from("seed"), String::from("soil"), vec![r]).unwrap();
    let p = Pipeline { stages: vec![stage] };
    let domain = ValueSet { intervals: vec![Interval::new(1_000_000_000, 1_000_000_000).unwrap()] };
    assert_eq!(p.minimum_over_set(&domain), 5);
}

#[test]
fn empty_stage_changes_nothing() {
    let stage = Stage::new(String::from("a"), String::from("b"), vec![]).unwrap();
    assert_eq!(stage.apply(0), 0);
    assert_eq!(stage.apply(u64::MAX), u64::MAX);
    let input = ValueSet { intervals: vec![Interval::new(3, 9).unwrap()] };
    let out = stage.apply_to_set(&input);
    let total: u64 = out.intervals.iter().map(|iv| iv.length).sum();
    assert_eq!(total, 9);
    for v in [2u64, 3, 7, 11, 12] {
        let covered = out.intervals.iter().any(|iv| iv.contains(v));
        assert_eq!(covered, v >= 3 && v < 12);
    }
}

#[test]
fn minimum_over_empty_domain_is_max() {
    let stage = Stage::new(String::from("a"), String::from("b"), vec![]).unwrap();
    let p = Pipeline { stages: vec![stage] };
    let empty = ValueSet { intervals: vec![] };
    assert_eq!(p.minimum_over_set(&empty), u64::MAX);
}

#[test]
fn split_produces_exact_partition() {
    let r = Range::new(52, 50, 48).unwrap();
    let input = Interval::new(40, 70).unwrap();
    let (before, translated, after) = r.split_against(&input);
    let before = before.unwrap();
    let translated = translated.unwrap();
    let after = after.unwrap();
    assert_eq!((before.start, before.length), (40, 10));
    assert_eq!((translated.start, translated.length), (52, 48));
    assert_eq!((after.start, after.length), (98, 12));
    assert_eq!(before.length + translated.length + after.length, input.length);
}

#[test]
fn split_entirely_outside_returns_input_piece() {
    let r = Range::new(52, 50, 48).unwrap();
    let (b, m, a) = r.split_against(&Interval::new(10, 5).unwrap());
    assert!(m.is_none() && a.is_none());
    let b = b.unwrap();
    assert_eq!((b.start, b.length), (10, 5));
    let (b2, m2, a2) = r.split_against(&Interval::new(200, 5).unwrap());
    assert!(b2.is_none() && m2.is_none());
    let a2 = a2.unwrap();
    assert_eq!((a2.start, a2.length), (200, 5));
}

#[test]
fn range_construction_rejects_bad_ranges() {
    assert!(Range::new(5, 5, 0).is_none());
    assert!(Range::new(0, u64::MAX, 2).is_none());
    assert!(Range::new(u64::MAX, 0, 2).is_none());
    assert!(Range::new(50, 98, 2).is_some());
}

#[test]
fn stage_construction_rejects_overlapping_sources() {
    let a = Range::new(0, 10, 10).unwrap();
    let b = Range::new(100, 15, 10).unwrap();
    assert!(Stage::new(String::from("x"), String::from("y"), vec![a, b]).is_none());
    let c = Range::new(100, 20, 10).unwrap();
    assert!(Stage::new(String::from("x"), String::from("y"), vec![a, c]).is_some());
}

#[test]
fn value_set_rejects_odd_or_invalid_pairs() {
    assert!(ValueSet::from_pairs(&vec![1, 2, 3]).is_none());
    assert!(ValueSet::from_pairs(&vec![1, 0]).is_none());
    assert!(ValueSet::from_pairs(&vec![u64::MAX, 2]).is_none());
    assert!(ValueSet::from_pairs(&vec![79, 14, 55, 13]).is_some());
}

#[test]
fn seed_entry_parses_strictly() {
    let s = Seeds::from_entry("seeds: 79 14 55 13").unwrap();
    assert_eq!(s.seeds, vec![79, 14, 55, 13]);
    assert!(Seeds::from_entry("seed: 79").is_none());
    assert_eq!(Seeds::from_entry("seeds: 0 7").unwrap().seeds, vec![7]);
}

#[test]
fn stage_entry_parses_names_and_ranges() {
    let st = Stage::from_entry("seed-to-soil map:\n50 98 2\n52 50 48").unwrap();
    assert_eq!(st.source, "seed");
    assert_eq!(st.destination, "soil");
    assert_eq!(st.apply(98), 50);
    assert_eq!(st.apply(50), 52);
    assert!(Stage::from_entry("seed-to-soil chart:\n50 98 2").is_none());
    assert!(Stage::from_entry("seed-to-soil map:\n50 98 0").is_none());
}

#[test]
fn example_minimum_over_discrete_seeds() {
    assert_eq!(puzzles::pipeline::solve(EXAMPLE), Some(35));
}

#[test]
fn example_minimum_over_seed_ranges() {
    assert_eq!(puzzles::pipeline::solve_star2(EXAMPLE), Some(46));
}

#[test]
fn brute_force_expansion_agrees_with_intervals() {
    let (seeds, maps) = puzzles::pipeline::parse_input(EXAMPLE).unwrap();
    let expanded = seeds.expand_ranges();
    let brute = expanded.min_location_number(&maps);
    assert_eq!(brute, 46);
}

#[test]
fn expand_ranges_lists_each_value() {
    let s = Seeds { seeds: vec![79, 3, 55, 2] };
    assert_eq!(s.expand_ranges().seeds, vec![79, 80, 81, 55, 56]);
}

#[test]
fn location_number_folds_stages_in_order() {
    let (_, maps) = puzzles::pipeline::parse_input(EXAMPLE).unwrap();
    assert_eq!(Seeds::location_number(79, &maps), 82);
    assert_eq!(Seeds::location_number(14, &maps), 43);
    assert_eq!(Seeds::location_number(55, &maps), 86);
    assert_eq!(Seeds::location_number(13, &maps), 35);
}

#[test]
fn minimum_over_values_tracks_running_minimum() {
    let (_, maps) = puzzles::pipeline::parse_input(EXAMPLE).unwrap();
    let p = Pipeline { stages: maps };
    assert_eq!(p.minimum_over_values(&vec![79, 14, 55, 13]), 35);
    assert_eq!(p.minimum_over_values(&vec![]), u64::MAX);
}

#[test]
fn malformed_almanac_fails_construction() {
    assert!(puzzles::pipeline::parse_input("").is_none());
    assert!(puzzles::pipeline::parse_input("seeds: 1 2\n\nbad header\n1 2 3").is_none());
    assert!(puzzles::pipeline::solve("nonsense").is_none());
    assert!(puzzles::pipeline::solve_star2("seeds: 1 0\n\nseed-to-soil map:\n50 98 2").is_none());
}
