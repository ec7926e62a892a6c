use puzzles::digits::find_solution as digits_solution;
use puzzles::races::{parse_input as parse_races, solve6, solve6_star2, Race};
use puzzles::scratchcards::{
    parse_input as parse_cards, solve as cards_solve, solve_star2 as cards_solve_star2, Card,
};

const CARDS_INPUT: &str = "Card 1: 41 48 83 86 17 | 83 86  6 31 17  9 48 53\nCard 2: 13 32 20 16 61 | 61 30 68 82 17 32 24 19\nCard 3:  1 21 53 59 44 | 69 82 63 72 16 21 14  1\nCard 4: 41 92 73 84 69 | 59 84 76 51 58  5 54 83\nCard 5: 87 83 26 28 32 | 88 30 70 12 93 22 82 36\nCard 6: 31 18 13 56 72 | 74 77 10 23 35 67 36 11\n";

const RACES_INPUT: &str = "Time:      7  15   30\nDistance:  9  40  200\n";

#[test]
fn calibration_digits_only() {
    let input = "1abc2\npqr3stu8vwx\na1b2c3d4e5f\ntreb7uchet";
    assert_eq!(digits_solution(input, false), 142);
}

#[test]
fn calibration_with_spelled_digits() {
    let input = "two1nine\neightwothree\nabcone2threexyz\nxtwone3four\n4nineeightseven2\nzoneight234\n7pqrstsixteen";
    assert_eq!(digits_solution(input, true), 281);
}

#[test]
fn overlapping_digit_words_all_count() {
    assert_eq!(digits_solution("oneight", true), 18);
    assert_eq!(digits_solution("5", true), 55);
}

#[test]
fn card_matches_and_points() {
    let c = Card::from_line("Card 1: 41 48 83 86 17 | 83 86  6 31 17  9 48 53").unwrap();
    assert_eq!(c.id, 1);
    assert_eq!(c.num_winning(), 4);
    assert_eq!(c.points_worth(), 8);
    let none = Card::from_line("Card 5: 87 83 26 28 32 | 88 30 70 12 93 22 82 36").unwrap();
    assert_eq!(none.num_winning(), 0);
    assert_eq!(none.points_worth(), 0);
}

#[test]
fn card_lines_parse_strictly() {
    assert!(Card::from_line("Cart 1: 1 | 2").is_none());
    assert!(Card::from_line("Card x: 1 | 2").is_none());
    assert!(Card::from_line("Card 1: 1 2 3").is_none());
    let parsed = parse_cards(CARDS_INPUT).unwrap();
    assert_eq!(parsed.len(), 6);
}

#[test]
fn cards_example_points() {
    assert_eq!(cards_solve(CARDS_INPUT), Some(13));
    assert!(cards_solve("garbage").is_none());
}

#[test]
fn cards_example_cascading_copies() {
    assert_eq!(cards_solve_star2(CARDS_INPUT), Some(30));
    assert!(cards_solve_star2("garbage").is_none());
}

#[test]
fn race_distance_and_record() {
    let r = Race::new(7, 9);
    assert_eq!(r.calc_distance(0), 0);
    assert_eq!(r.calc_distance(3), 12);
    assert!(r.beats_record(3));
    assert!(!r.beats_record(1));
    assert_eq!(r.num_ways_to_beat_record(), 4);
}

#[test]
fn races_parse_and_example_product() {
    let races = parse_races(RACES_INPUT).unwrap();
    assert_eq!(races.len(), 3);
    assert_eq!(races[0].time, 7);
    assert_eq!(races[2].record, 200);
    assert_eq!(solve6(RACES_INPUT), Some(288));
    assert!(parse_races("Time: 7").is_none());
    assert!(parse_races("Time: x\nDistance: 9").is_none());
}

#[test]
fn races_joined_digits_example() {
    assert_eq!(solve6_star2(RACES_INPUT), Some(71503));
}

#[test]
fn extending_races_joins_digit_columns() {
    let a = Race::new(7, 9);
    let b = Race::new(15, 40);
    let joined = a.extend_with_race(&b);
    assert_eq!(joined.time, 715);
    assert_eq!(joined.record, 940);
    let from_zero = Race::new(0, 0).extend_with_race(&a);
    assert_eq!(from_zero.time, 7);
    assert_eq!(from_zero.record, 9);
}
