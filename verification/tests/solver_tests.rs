use aoc::y2023;
use aoc::y2024;

#[test]
fn d1_test_example() {
    let str = "3   4
4   3
2   5
1   3
3   9
3   3
";
    let result = y2024::d1::part1(str.to_string());
    assert_eq!(result, "11");
}

#[test]
fn d1_test_example_part2() {
    let str = "3   4
4   3
2   5
1   3
3   9
3   3
";
    let result = y2024::d1::part2(str.to_string());
    assert_eq!(result, "31");
}

#[test]
fn d2_test_example() {
    let str = "7 6 4 2 1
1 2 7 8 9
9 7 6 2 1
1 3 2 4 5
8 6 4 4 1
1 3 6 7 9";
    let result = y2024::d2::part1(str.to_string());
    assert_eq!(result, "2");
}

#[test]
fn d2_test_example_part2() {
    let str = "7 6 4 5 3
7 6 4 2 1
1 2 7 8 9
9 7 6 2 1
1 3 2 4 5
8 6 4 4 1
1 3 6 7 9
";
    let result = y2024::d2::part2(str.to_string());
    assert_eq!(result, "5");
}

#[test]
fn d3_test_part1() {
    let input = "xmul(2,4)%&mul[3,7]!@^do_not_mul(5,5)+mul(32,64]then(mul(11,8)mul(8,5))";
    let result = y2024::d3::part1(input.to_string());
    assert_eq!(result, "161");
}

#[test]
fn d3_test_part2() {
    let str = "don't()do()xmul(2,4)&mul[3,7]!^don't()_don't()mul(5,5)+mul(32,64](mul(11,8)undo()do()?mul(8,5))don't()mul(4,2)testd()mul(8,1)don't()mul(4,1)d()mul(8,1)";
    let result = y2024::d3::part2(str.to_string());
    assert_eq!(result, "48");
}

const D4_INPUT: &str = "MMMSXXMASM
MSAMXMSMSA
AMXSXMAAMM
MSAMASMSMX
XMASAMXAMM
XXAMMXXAMA
SMSMSASXSS
SAXAMASAAA
MAMMMXMMMM
MXMXAXMASX
";

#[test]
fn d4_test_part1() {
    let result = y2024::d4::part1(D4_INPUT.to_string());
    assert_eq!(result, "18");
}

#[test]
fn d4_test_part2() {
    let result = y2024::d4::part2(D4_INPUT.to_string());
    assert_eq!(result, "9");
}

const D5_INPUT: &str = "47|53
97|13
97|61
97|47
75|29
61|13
75|53
29|13
97|29
53|29
61|53
97|53
61|29
47|13
75|47
97|75
47|61
75|61
47|29
75|13
53|13

75,47,61,53,29
97,61,53,29,13
75,29,13
75,97,47,61,53
61,13,29
97,13,75,29,47";

#[test]
fn d5_test_part1() {
    let result = y2024::d5::part1(D5_INPUT.to_string());
    assert_eq!(result, "143");
}

#[test]
fn d5_test_part2() {
    let result = y2024::d5::part2(D5_INPUT.to_string());
    assert_eq!(result, "123");
}

const D6_INPUT: &str = "
....#.....
.........#
..........
..#.......
.......#..
..........
.#..^.....
........#.
#.........
......#...";

#[test]
fn d6_test_part1() {
    let result = y2024::d6::part1(D6_INPUT.to_string());
    assert_eq!(result, "41");
}

#[test]
fn d6_test_part2() {
    let result = y2024::d6::part2(D6_INPUT.to_string());
    assert_eq!(result, "6");
}

const D7_INPUT: &str = "
190: 10 19
3267: 81 40 27
83: 17 5
156: 15 6
7290: 6 8 6 15
161011: 16 10 13
192: 17 8 14
21037: 9 7 18 13
292: 11 6 16 20
";

#[test]
fn d7_test_part1() {
    let result = y2024::d7::part1(D7_INPUT.to_string());
    assert_eq!(result, "3749");
}

#[test]
fn d7_test_part2() {
    let result = y2024::d7::part2(D7_INPUT.to_string());
    assert_eq!(result, "11387");
}

const D8_INPUT: &str = "
............
........0...
.....0......
.......0....
....0.......
......A.....
............
............
........A...
.........A..
............
............
";

#[test]
fn d8_test_part1() {
    let result = y2024::d8::part1(D8_INPUT.to_string());
    assert_eq!(result, "14");
}

#[test]
fn d8_test_part2() {
    let result = y2024::d8::part2(D8_INPUT.to_string());
    assert_eq!(result, "34");
}

const D9_INPUT: &str = "2333133121414131402";

#[test]
fn d9_test_part1() {
    let result = y2024::d9::part1(D9_INPUT.to_string());
    assert_eq!(result, "1928");
}

#[test]
fn d9_test_part2() {
    let result = y2024::d9::part2(D9_INPUT.to_string());
    assert_eq!(result, "2858");
}

const D10_INPUT: &str = "
89010123
78121874
87430965
96549874
45678903
32019012
01329801
10456732";

#[test]
fn d10_test_part1() {
    let result = y2024::d10::part1(D10_INPUT.to_string());
    assert_eq!(result, "36");
}

#[test]
fn d10_test_part2() {
    let result = y2024::d10::part2(D10_INPUT.to_string());
    assert_eq!(result, "81");
}

const D11_INPUT: &str = "
125 17";

#[test]
fn test_stone_blink() {
    assert_eq!(y2024::d11::blink(1000), vec![10, 0]);
    assert_eq!(y2024::d11::blink(17), vec![1, 7]);
    assert_eq!(y2024::d11::blink(0), vec![1]);
    assert_eq!(y2024::d11::blink(1), vec![2024]);
}

#[test]
fn d11_test_part1() {
    let result = y2024::d11::part1(D11_INPUT.to_string());
    assert_eq!(result, "55312");
}

#[test]
fn d11_test_part2() {
    let result = y2024::d11::part2(D11_INPUT.to_string());
    assert_eq!(result, "65601038650482");
}

#[test]
fn y2023_d1_calibration_values() {
    assert_eq!(y2023::d1::part1("a1b2c".to_string()), "12");
    assert_eq!(y2023::d1::part2("two1nine".to_string()), "29");
    assert_eq!(y2023::d1::part2("eightwothree".to_string()), "83");
    let input = y2023::d1::Input::create("treb7uchet".to_string());
    assert_eq!(input.number(), 77);
}

#[test]
fn y2023_d1_file_sum() {
    let file = y2023::d1::FileInput::create("1abc2\npqr3stu8vwx\na1b2c3d4e5f\ntreb7uchet".to_string());
    assert_eq!(file.sum(), 142);
}

#[test]
fn y2023_d1_number_names() {
    let n = y2023::d1::Number::create("seven".to_string());
    assert_eq!(n.number(), 7);
    let n = y2023::d1::Number::create("xyz".to_string());
    assert_eq!(n.number(), 0);
    let n = y2023::d1::Number::create("abcone".to_string());
    assert_eq!(n.number(), 1);
}

const D2_2023_INPUT: &str = "Game 1: 3 blue, 4 red; 1 red, 2 green, 6 blue; 2 green
Game 2: 1 blue, 2 green; 3 green, 4 blue, 1 red; 1 green, 1 blue
Game 3: 8 green, 6 blue, 20 red; 5 blue, 4 red, 13 green; 5 green, 1 red
Game 4: 1 green, 3 red, 6 blue; 3 green, 6 red; 3 green, 15 blue, 14 red
Game 5: 6 red, 1 blue, 3 green; 2 blue, 1 red, 2 green";

#[test]
fn y2023_d2_part1_example() {
    assert_eq!(y2023::d2::part1(D2_2023_INPUT.to_string()), "8");
}

#[test]
fn y2023_d2_part2_example() {
    assert_eq!(y2023::d2::part2(D2_2023_INPUT.to_string()), "2286");
}

#[test]
fn y2023_d2_from_line() {
    let game = y2023::d2::Game::from_line("Game 12: 3 blue, 4 red");
    assert_eq!(game.game, 12);
    assert_eq!(game.sets.len(), 1);
    assert_eq!(game.sets[0].len(), 2);
}

const D3_2023_INPUT: &str = "467..114..
...*......
..35..633.
......#...
617*......
.....+.58.
..592.....
......755.
...$.*....
.664.598..";

#[test]
fn y2023_d3_part1_example() {
    assert_eq!(y2023::d3::part1(D3_2023_INPUT.to_string()), "4361");
}

#[test]
fn y2023_d3_part2_matches_part1() {
    assert_eq!(
        y2023::d3::part2(D3_2023_INPUT.to_string()),
        y2023::d3::part1(D3_2023_INPUT.to_string())
    );
}

#[test]
fn solution_part_create() {
    let part = aoc::SolutionPart::create(2024, 9, 2);
    assert_eq!(part.year, 2024);
    assert_eq!(part.day, 9);
    assert_eq!(part.part, 2);
}
