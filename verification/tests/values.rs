use advent::day1;
use advent::day10;
use advent::day13;
use advent::day2;
use advent::day3;
use advent::day4;
use advent::text;

#[test]
fn day1_groups_and_totals() {
    let input = "1000\n2000\n3000\n\n4000\n\n5000\n6000\n\n7000\n8000\n9000\n\n10000";
    let groups = day1::day1_parser(input).unwrap();
    assert_eq!(groups.len(), 5);
    assert_eq!(groups[0], vec![1000, 2000, 3000]);
    let (max, top3) = day1::day1(input).unwrap();
    assert_eq!(max, "24000");
    assert_eq!(top3, "45000");
}

#[test]
fn day1_rejects_bad_numeral() {
    assert!(day1::day1_parser("12\nx9").is_none());
    assert!(day1::day1("12\nx9").is_none());
}

#[test]
fn day1_empty_input_gives_one_empty_group() {
    let groups = day1::day1_parser("").unwrap();
    assert_eq!(groups.len(), 1);
    assert!(groups[0].is_empty());
}

#[test]
fn day2_both_scores() {
    let input = "A Y\nB X\nC Z";
    let (one, two) = day2::solution(input).unwrap();
    assert_eq!(one, "15");
    assert_eq!(two, "12");
}

#[test]
fn day2_rejects_short_line() {
    assert!(day2::solution("A").is_none());
}

#[test]
fn day3_priorities() {
    let input = "vJrwpWtwJgWrhcsFMMfFFhFp\njqHRNqRjqzjGDLGLrsFMfFZSrLrFZsSL\nPmmdzqPrVvPwwTWBwg\nwMqvLMZHhHMvwLHjbvcjnnSBnvTQFn\nttgJtRGJQctTZtZT\nCrZsJsPPZsGzwwsLwLmpwMDw";
    let (one, two) = day3::solution(input);
    assert_eq!(one, "157");
    assert_eq!(two, "70");
}

#[test]
fn day4_ranges() {
    let input = "2-4,6-8\n2-3,4-5\n5-7,7-9\n2-8,3-7\n6-6,4-6\n2-6,4-8";
    let pairs = day4::parser(input).unwrap();
    assert_eq!(pairs.len(), 6);
    assert!(day4::one_contains_another(&pairs[3]));
    assert!(!day4::one_contains_another(&pairs[0]));
    assert!(day4::overlaps(&pairs[2]));
    assert!(!day4::overlaps(&pairs[1]));
    let (one, two) = day4::solution(input).unwrap();
    assert_eq!(one, "2");
    assert_eq!(two, "4");
}

#[test]
fn day4_rejects_missing_dash() {
    assert!(day4::parser("24,6-8").is_none());
    assert!(day4::parse_range(&"68".chars().collect()).is_none());
}

#[test]
fn day10_small_program() {
    let register = day10::Register::parse("noop\naddx 3\naddx -5").unwrap();
    assert_eq!(register.operations, vec![(1, 0), (2, 3), (2, -5)]);
    assert_eq!(register.signal_wave, vec![(1, 1), (2, 1), (4, 4), (6, -1)]);
    let xs = register.get_x_at_cycles(vec![3, 5]);
    assert_eq!(xs, vec![(3, 1), (5, 4)]);
    let per_cycle = register.get_x_per_cycle();
    assert_eq!(per_cycle[0], (1, 1));
    assert_eq!(per_cycle[4], (5, 4));
}

#[test]
fn day10_rejects_bad_line() {
    assert!(day10::Register::parse("noop\nadd x").is_none());
}

#[test]
fn day13_nested_packets() {
    let packets = day13::parse_packet_data("[1,[2,[3]],4]");
    assert_eq!(packets.len(), 3);
    assert!(day13::parse_packet_data("[1,2").is_empty());
    let (one, two) = day13::solution("anything");
    assert_eq!(one, "0");
    assert_eq!(two, "0");
}

#[test]
fn numerals_round_trip() {
    assert_eq!(text::u64_string(0), "0");
    assert_eq!(text::u64_string(907), "907");
    assert_eq!(text::i64_string(-45), "-45");
    let digits: Vec<char> = "65535".chars().collect();
    assert_eq!(text::parse_u64(&digits), Some(65535));
    let minus: Vec<char> = "-17".chars().collect();
    assert_eq!(text::parse_i64(&minus), Some(-17));
    let bad: Vec<char> = "1x".chars().collect();
    assert_eq!(text::parse_u64(&bad), None);
}
