use puzzles::camel_cards::{find_type, Card as CamelCard, Hand, HandType};
use puzzles::cube_game::{find_solution, parse_input, Game};
use puzzles::schematic::{extract_parts, solve, symbol_adjacent, Grid, Part};

const TEST_INPUT: &str = "Game 1: 3 blue, 4 red; 1 red, 2 green, 6 blue; 2 green\nGame 2: 1 blue, 2 green; 3 green, 4 blue, 1 red; 1 green, 1 blue\nGame 3: 8 green, 6 blue, 20 red; 5 blue, 4 red, 13 green; 5 green, 1 red\nGame 4: 1 green, 3 red, 6 blue; 3 green, 6 red; 3 green, 15 blue, 14 red\nGame 5: 6 red, 1 blue, 3 green; 2 blue, 1 red, 2 green\n";

const GRID_INPUT: &str = "467..114..\n...*......\n..35..633.\n......#...\n617*......\n......+.58.\n..592.....\n......755.\n...$.*....\n664.598..\n";

#[test]
fn test_input_parse() {
    let parsed_input = parse_input(TEST_INPUT).unwrap();
    assert_eq!(parsed_input.len(), 5);
    assert_eq!(parsed_input[0].get(0).get("red"), 4);
    assert_eq!(parsed_input[0].get(1).get("green"), 2);
}

#[test]
fn test_day2() {
    let s = TEST_INPUT;
    assert_eq!(find_solution(s, false), Some(8));
}

#[test]
fn test_day2_exercise2() {
    let s = TEST_INPUT;
    assert_eq!(find_solution(s, true), Some(2286));
}

#[test]
fn cube_game_rejects_malformed_lines() {
    assert!(Game::from_line("Gme 1: 3 blue").is_none());
    assert!(Game::from_line("Game x: 3 blue").is_none());
    assert!(Game::from_line("Game 1: 3").is_none());
    let g = Game::from_line("Game 7: 3 blue, 4 red; 2 green").unwrap();
    assert_eq!(g.len(), 2);
    assert_eq!(g.get(0).get("blue"), 3);
    assert_eq!(g.get(0).get("purple"), 0);
}

#[test]
fn cube_game_minimal_set_and_power() {
    let g = Game::from_line("Game 1: 3 blue, 4 red; 1 red, 2 green, 6 blue; 2 green").unwrap();
    let m = g.min_possible();
    assert_eq!(m.get("red"), 4);
    assert_eq!(m.get("green"), 2);
    assert_eq!(m.get("blue"), 6);
    assert_eq!(m.power(), 48);
    assert!(g.is_possible(12, 13, 14));
    assert!(!g.is_possible(3, 13, 14));
}

#[test]
fn test_parse_input() {
    let _g: Grid = puzzles::schematic::parse_input(TEST_INPUT);
}

#[test]
fn test_is_adjacent() {
    let input = puzzles::schematic::parse_input(GRID_INPUT);
    assert!(symbol_adjacent(&input, &Part { part_num: 592, len: 3, i: 6, j: 2 }));
}

#[test]
fn schematic_example_sum() {
    assert_eq!(solve(GRID_INPUT, false), 4361);
}

#[test]
fn schematic_parts_are_maximal_runs() {
    let g = puzzles::schematic::parse_input("12..34\n.5....\n");
    let parts = extract_parts(&g);
    assert_eq!(parts.len(), 3);
    assert_eq!(parts[0], Part { part_num: 12, len: 2, i: 0, j: 0 });
    assert_eq!(parts[1], Part { part_num: 34, len: 2, i: 0, j: 4 });
    assert_eq!(parts[2], Part { part_num: 5, len: 1, i: 1, j: 1 });
}

#[test]
fn grid_lookups_default_to_dots() {
    let g = puzzles::schematic::parse_input("1*\n.2\n");
    assert_eq!(g.get(0, 0), '1');
    assert_eq!(g.get(0, 1), '*');
    assert_eq!(g.get(5, 5), '.');
    assert_eq!(g.get_signed(-1, 0), '.');
    assert_eq!(g.width(1), 2);
}

#[test]
fn test_day7_kind_compare() {
    assert!(HandType::FourOfAKind > HandType::FullHouse);
    assert!(HandType::FullHouse > HandType::ThreeOfAKind);
    assert!(HandType::ThreeOfAKind > HandType::TwoPair);
    assert!(HandType::TwoPair > HandType::OnePair);
    assert!(HandType::OnePair > HandType::HighCard);
}

#[test]
fn test_compare_hands() {
    let hand1 = Hand::from_line("2QQQA 220").unwrap();
    let hand2 = Hand::from_line("2QQQK 483").unwrap();
    assert!(hand1 > hand2);
}

#[test]
fn hand_shapes_with_jokers() {
    fn shape(s: &str) -> HandType {
        Hand::from_line(s).unwrap().hand_type
    }
    assert_eq!(shape("AAAAA 1"), HandType::FiveOfAKind);
    assert_eq!(shape("JJJJJ 1"), HandType::FiveOfAKind);
    assert_eq!(shape("QQQJA 1"), HandType::FourOfAKind);
    assert_eq!(shape("22334 1"), HandType::TwoPair);
    assert_eq!(shape("2233J 1"), HandType::FullHouse);
    assert_eq!(shape("23456 1"), HandType::HighCard);
    assert_eq!(shape("2345J 1"), HandType::OnePair);
    assert_eq!(shape("32T3K 1"), HandType::OnePair);
    assert_eq!(shape("T55J5 1"), HandType::FourOfAKind);
}

#[test]
fn find_type_reads_plain_counts() {
    let cards: Vec<CamelCard> = [3u8, 2, 10, 3, 13].iter().map(|r| CamelCard { rank: *r }).collect();
    assert_eq!(find_type(&cards), HandType::OnePair);
}

#[test]
fn hand_lines_parse_strictly() {
    assert!(Hand::from_line("2QQQ 220").is_none());
    assert!(Hand::from_line("2QQQXA 220").is_none());
    assert!(Hand::from_line("2QQQA").is_none());
    assert!(Hand::from_line("2QQQA abc").is_none());
    let h = Hand::from_line("2QQQA 220").unwrap();
    assert_eq!(h.bid, 220);
    assert_eq!(h.cards.len(), 5);
    assert_eq!(h.cards[0].rank, 2);
    assert_eq!(h.cards[4].rank, 14);
}

#[test]
fn card_ranks_from_characters() {
    assert_eq!(CamelCard::from_char('2').rank, 2);
    assert_eq!(CamelCard::from_char('9').rank, 9);
    assert_eq!(CamelCard::from_char('T').rank, 10);
    assert_eq!(CamelCard::from_char('J').rank, 1);
    assert_eq!(CamelCard::from_char('Q').rank, 12);
    assert_eq!(CamelCard::from_char('K').rank, 13);
    assert_eq!(CamelCard::from_char('A').rank, 14);
}
