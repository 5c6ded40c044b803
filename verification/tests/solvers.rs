use advent::day11;
use advent::day12;
use advent::day13;
use advent::day5;
use advent::day6;
use advent::day7;
use advent::day8;
use advent::day9;

const DAY5_INPUT: &str = "
    [D]    
[N] [C]    
[Z] [M] [P]
 1   2   3 

move 1 from 2 to 1
move 3 from 1 to 3
move 2 from 2 to 1
move 1 from 1 to 2";

#[test]
fn parse_crate_line() {
    let mut crates: Vec<Vec<char>> = Vec::new();
    day5::parse_crate_line(DAY5_INPUT.lines().collect::<Vec<&str>>()[3], &mut crates);
    day5::parse_crate_line(DAY5_INPUT.lines().collect::<Vec<&str>>()[2], &mut crates);
    day5::parse_crate_line(DAY5_INPUT.lines().collect::<Vec<&str>>()[1], &mut crates);
    assert!(crates[1].pop().unwrap() == 'N');
    assert!(crates[2].pop().unwrap() == 'D');
    assert!(crates[3].pop().unwrap() == 'P');
}

#[test]
fn reverse_iter() {
    let index = day5::find_start_of_operations(DAY5_INPUT);
    let crates: Vec<String> = DAY5_INPUT
        .lines()
        .take(index - 1)
        .collect::<Vec<&str>>()
        .iter()
        .rev()
        .map(|l| l.to_owned().to_owned())
        .collect::<Vec<String>>();
    assert!(crates[0] == "[Z] [M] [P]");
}

#[test]
fn parse_operations() {
    let operation_strings = &DAY5_INPUT.lines().collect::<Vec<&str>>()[6..=7];
    let op_one = day5::get_operation(operation_strings[0]).unwrap();
    let op_two = day5::get_operation(operation_strings[1]).unwrap();
    assert!(op_one == (1, 2, 1));
    assert!(op_two == (3, 1, 3));
}

#[test]
fn result1() {
    let (mut crates, operations) = day5::parser(DAY5_INPUT).unwrap();
    for op in operations {
        day5::run_operation(op, &mut crates)
    }
    assert!(day5::parse_answer(&crates) == "CMZ".to_owned());
}

#[test]
fn result2() {
    let (mut crates, operations) = day5::parser(DAY5_INPUT).unwrap();
    for op in operations {
        day5::run_operation_updated(op, &mut crates)
    }
    assert!(day5::parse_answer(&crates) == "MCD".to_owned());
}

const DAY6_INPUT: &[(&str, u8); 4] = &[
    ("bvwbjplbgvbhsrlpgdmjqwftvncz", 5),
    ("nppdvjthqldpwncqszvftbrmjlhg", 6),
    ("nznrnfrfntjfmvfwmzdfjlvtqnbhcprsg", 10),
    ("zcfzfwzzqfrljwzlrfnpqdbhtmscgvjw", 11),
];

#[test]
fn find_first_n_distinct() {
    for (s, expected) in DAY6_INPUT.iter() {
        assert_eq!(day6::find_first_n_distinct(s, 4), *expected as usize);
    }
}

const DAY7_INPUT: &str = "
$ cd /
$ ls
dir a
14848514 b.txt
8504156 c.dat
dir d
$ cd a
$ ls
dir e
29116 f
2557 g
62596 h.lst
$ cd e
$ ls
584 i
$ cd ..
$ cd ..
$ cd d
$ ls
4060174 j
8033020 d.log
5626152 d.ext
7214296 k";

#[test]
fn build() {
    let fs = day7::FileSystem(Vec::new()).build(DAY7_INPUT).unwrap();
    let want = vec!["a".to_string(), "e".to_string()];
    let mut found = false;
    for entry in &fs.0 {
        if entry.path == want {
            found = true;
            assert_eq!(entry.files[0].name, "i".to_string());
            assert_eq!(entry.files[0].size, 584);
        }
    }
    assert!(found);
}

const DAY8_INPUT: &str = "\
30373
25512
65332
33549
35390";

#[test]
fn day8_parser() {
    let forest = day8::parser(&DAY8_INPUT).unwrap();

    assert_eq!(forest[0][0].height, 3);
    assert_eq!(forest[0][1].height, 2);
    assert_eq!(forest[0][2].height, 6);
    assert_eq!(forest[0][3].height, 3);
    assert_eq!(forest[0][4].height, 3);
    assert_eq!(forest[1][0].height, 0);
    assert_eq!(forest[1][1].height, 5);
    assert_eq!(forest[2][2].height, 3);
    assert_eq!(forest[3][3].height, 4);
    assert_eq!(forest[3][4].height, 9);
    assert_eq!(forest[4][4].height, 0);

    assert_eq!(forest[0][0].visible, true);
    assert_eq!(forest[0][1].visible, true);
    assert_eq!(forest[0][2].visible, true);
    assert_eq!(forest[0][3].visible, true);
    assert_eq!(forest[0][4].visible, true);
    assert_eq!(forest[1][0].visible, true);
    assert_eq!(forest[1][1].visible, true);
    assert_eq!(forest[1][2].visible, true);
    assert_eq!(forest[1][3].visible, false);
    assert_eq!(forest[2][2].visible, false);
    assert_eq!(forest[3][2].visible, true);
    assert_eq!(forest[3][3].visible, false);
    assert_eq!(forest[3][4].visible, true);
    assert_eq!(forest[4][4].visible, true);
}

#[test]
fn count_visible_trees() {
    let forest = day8::parser(&DAY8_INPUT).unwrap();
    assert_eq!(day8::count_visible_trees(&forest), 21);
}

#[test]
fn scenic_score() {
    let forest = day8::parser(&DAY8_INPUT).unwrap();

    assert_eq!(day8::scenic_score(&forest, 2, 1), 4);
    assert_eq!(day8::scenic_score(&forest, 2, 2), 1);
    assert_eq!(day8::scenic_score(&forest, 2, 3), 8);
    assert_eq!(day8::scenic_score(&forest, 3, 1), 1);
    assert_eq!(day8::scenic_score(&forest, 3, 3), 3);
    assert_eq!(day8::scenic_score(&forest, 4, 2), 0);
    assert_eq!(day8::scenic_score(&forest, 4, 4), 0);
}

const DAY9_INPUT: &str = "\
R 4
U 4
L 3
D 1
R 4
D 1
L 5
R 2";

const DAY9_INPUT_TWO: &str = "\
R 5
U 8
L 8
D 3
R 17
D 10
L 25
U 20";

#[test]
fn rope_part1() {
    let mut rope = day9::Rope::start(2);
    for cmd in DAY9_INPUT.lines() {
        rope.move_head(cmd);
    }
    assert_eq!(rope.knots[0].pos, (2, 2));
    assert_eq!(rope.tail().unwrap().pos, (1, 2));
    assert_eq!(rope.tail().unwrap().path_set.len(), 13);
}

#[test]
fn rope_part2() {
    let mut rope = day9::Rope::start(10);
    for cmd in DAY9_INPUT_TWO.lines() {
        rope.move_head(cmd);
    }
    assert_eq!(rope.knots[0].pos, (-11, 15));
    assert_eq!(rope.tail().unwrap().pos, (-11, 6));
    assert_eq!(rope.tail().unwrap().path_set.len(), 36);
}

const DAY11_INPUT: &str = "\
Monkey 0:
  Starting items: 79, 98
  Operation: new = old * 19
  Test: divisible by 23
    If true: throw to monkey 2
    If false: throw to monkey 3

Monkey 1:
  Starting items: 54, 65, 75, 74
  Operation: new = old + 6
  Test: divisible by 19
    If true: throw to monkey 2
    If false: throw to monkey 0

Monkey 2:
  Starting items: 79, 60, 97
  Operation: new = old * old
  Test: divisible by 13
    If true: throw to monkey 1
    If false: throw to monkey 3

Monkey 3:
  Starting items: 74
  Operation: new = old + 3
  Test: divisible by 17
    If true: throw to monkey 0
    If false: throw to monkey 1";

#[test]
fn day11_parser() {
    let jungle = day11::parser(DAY11_INPUT).unwrap();

    assert_eq!(jungle.len(), 4);
    assert_eq!(jungle[0].items, vec![79, 98]);
    assert_eq!(
        jungle[0].operation_type,
        Some(day11::OperationType::Multiplication)
    );
    assert_eq!(jungle[0].operation_number, Some(19));

    assert_eq!(jungle[2].operation_number, None);
    assert_eq!(jungle[2].test.divisible_by, 13);
    assert_eq!(jungle[2].test.true_monkey, 1);
    assert_eq!(jungle[2].test.false_monkey, 3);

    assert_eq!(jungle[3].items, vec![74]);
    assert_eq!(jungle[3].operation_number, Some(3));
}

#[test]
fn play_twenty_rounds() {
    let jungle = day11::parser(DAY11_INPUT).unwrap();
    let game = &mut day11::KeepAwayGame { monkeys: jungle };

    game.start_with_relief_coefficient(20);

    assert_eq!(game.monkeys[0].items, vec![10, 12, 14, 26, 34]);
    assert_eq!(game.monkeys[1].items, vec![245, 93, 53, 199, 115]);
    assert_eq!(game.monkeys[2].items, vec![]);
    assert_eq!(game.monkeys[3].items, vec![]);

    assert_eq!(game.monkeys[0].inspections, 101);
    assert_eq!(game.monkeys[1].inspections, 95);
    assert_eq!(game.monkeys[2].inspections, 7);
    assert_eq!(game.monkeys[3].inspections, 105);
}

const DAY12_INPUT: &str = "\
Sabqponm
abcryxxl
accszExk
acctuvwj
abdefghi";

#[test]
fn day12_parser() {
    let (start, end, grid) = day12::parser(DAY12_INPUT);
    assert_eq!(start, (0, 0));
    assert_eq!(end, (2, 5));
    assert_eq!(grid.len(), 5);
    assert_eq!(grid[0].len(), 8);
    assert_eq!(grid[0][0], 'S');
    assert_eq!(grid[2][1], 'c');
    assert_eq!(grid[2][1], 'c');
    assert_eq!(grid[2][2], 'c');
    assert_eq!(grid[2][3], 's');
    assert_eq!(grid[2][4], 'z');
    assert_eq!(grid[2][5], 'E');
    assert_eq!(grid[2][7], 'k');
    assert_eq!(grid[3][7], 'j');
    assert_eq!(grid[4][7], 'i');
}

#[test]
fn alphabet() {
    let mut alphabet = day12::alphabet();
    alphabet.sort_by(|a, b| a.1.cmp(&b.1));
    assert_eq!(alphabet[0].0, 'a');
    assert_eq!(alphabet[1].0, 'b');
    assert_eq!(alphabet.last().unwrap().0, 'z');
}

#[test]
fn neighbors() {
    let (start, _, grid) = day12::parser(DAY12_INPUT);
    assert_eq!(day12::neighbors(&grid, &start), vec![(1, 0), (0, 1)]);
    assert_eq!(
        day12::neighbors(&grid, &(0, 1)),
        vec![(0, 0), (1, 1), (0, 2)]
    );
    assert_eq!(
        day12::neighbors(&grid, &(3, 3)),
        vec![(2, 3), (3, 2), (4, 3), (3, 4)]
    );
}

#[test]
fn height_diff() {
    let (start, end, grid) = day12::parser(DAY12_INPUT);
    assert_eq!(day12::height_diff(&grid, &start, &(1, 0)), 0);
    assert_eq!(day12::height_diff(&grid, &start, &(0, 1)), 0);
    assert_eq!(day12::height_diff(&grid, &(1, 5), &end), 2);
}

#[test]
fn dijkstra() {
    let (start, end, grid) = day12::parser(DAY12_INPUT);
    assert_eq!(day12::dijkstra(&grid, &start, &end), 31);
}

const DAY12_INPUT_TWO: &str = "\
Szzzzzzj
zabqfhEi
abcdefgh
accczzxk";

#[test]
fn dijkstra_two() {
    let (start, end, grid) = day12::parser(DAY12_INPUT_TWO);
    assert_eq!(day12::dijkstra(&grid, &start, &end), 0);
}

#[test]
fn get_low_points() {
    let (_, _, grid) = day12::parser(DAY12_INPUT);
    assert_eq!(
        day12::get_low_points(&grid),
        vec![(0, 1), (1, 0), (2, 0), (3, 0), (4, 0)]
    );
}

const DAY13_INPUT: &str = "
[1,1,3,1,1]
[1,1,5,1,1]

[[1],[2,3,4]]
[[1],4]

[9]
[[8,7,6]]

[[4,4],4,4]
[[4,4],4,4,4]

[7,7,7,7]
[7,7,7]

[]
[3]

[[[]]]
[[]]

[1,[2,[3,[4,[5,6,7]]]],8,9]
[1,[2,[3,[4,[5,6,0]]]],8,9]
";

#[test]
fn parse_packet_data() {
    let input = "[[1],[2,3,4]]";
    let result = day13::parse_packet_data(input);
    assert_eq!(result.len(), 2);
}

#[test]
fn day13_parser() {
    let result = day13::parser(DAY13_INPUT).unwrap();
    assert_eq!(result.len(), 8);
}
