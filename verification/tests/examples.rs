//! The worked examples of each solver.

use puzzles::{almanac, calibration, camel_cards, cube_game, extrapolation, network, pipe_maze,
    races, schematic, scratchcards};

#[test]
fn test_part_one_01() {
    let input = "1abc2\npqr3stu8vwx\na1b2c3d4e5f\ntreb7uchet";
    assert_eq!(calibration::part_one(input).unwrap(), 142);
}

#[test]
fn test_part_two_01() {
    let input = "two1nine\neightwothree\nabcone2threexyz\nxtwone3four\n4nineeightseven2\nzoneight234\n7pqrstsixteen";
    assert_eq!(calibration::part_two(input).unwrap(), 281);
}

const CUBES: &str = "Game 1: 3 blue, 4 red; 1 red, 2 green, 6 blue; 2 green\nGame 2: 1 blue, 2 green; 3 green, 4 blue, 1 red; 1 green, 1 blue\nGame 3: 8 green, 6 blue, 20 red; 5 blue, 4 red, 13 green; 5 green, 1 red\nGame 4: 1 green, 3 red, 6 blue; 3 green, 6 red; 3 green, 15 blue, 14 red\nGame 5: 6 red, 1 blue, 3 green; 2 blue, 1 red, 2 green";

#[test]
fn test_part_one_02() {
    assert_eq!(cube_game::part_one(CUBES).unwrap(), 8);
}

#[test]
fn test_part_two_02() {
    assert_eq!(cube_game::part_two(CUBES).unwrap(), 2286);
}

const SCHEMATIC: &str = "467..114..\n...*......\n..35..633.\n......#...\n617*......\n.....+.58.\n..592.....\n......755.\n...$.*....\n.664.598..";

#[test]
fn test_part_one_03() {
    assert_eq!(schematic::part_one(SCHEMATIC), Some(4361));
}

#[test]
fn test_part_two_03() {
    assert_eq!(schematic::part_two(SCHEMATIC), Some(467835));
}

const CARDS: &str = "Card 1: 41 48 83 86 17 | 83 86  6 31 17  9 48 53\nCard 2: 13 32 20 16 61 | 61 30 68 82 17 32 24 19\nCard 3:  1 21 53 59 44 | 69 82 63 72 16 21 14  1\nCard 4: 41 92 73 84 69 | 59 84 76 51 58  5 54 83\nCard 5: 87 83 26 28 32 | 88 30 70 12 93 22 82 36\nCard 6: 31 18 13 56 72 | 74 77 10 23 35 67 36 11";

#[test]
fn test_part_one_04() {
    assert_eq!(scratchcards::part_one(CARDS), Some(13));
}

#[test]
fn test_part_two_04() {
    assert_eq!(scratchcards::part_two(CARDS), Some(30));
}

const ALMANAC: &str = "seeds: 79 14 55 13\n\nseed-to-soil map:\n50 98 2\n52 50 48\n\nsoil-to-fertilizer map:\n0 15 37\n37 52 2\n39 0 15\n\nfertilizer-to-water map:\n49 53 8\n0 11 42\n42 0 7\n57 7 4\n\nwater-to-light map:\n88 18 7\n18 25 70\n\nlight-to-temperature map:\n45 77 23\n81 45 19\n68 64 13\n\ntemperature-to-humidity map:\n0 69 1\n1 0 69\n\nhumidity-to-location map:\n60 56 37\n56 93 4";

#[test]
fn test_part_one_05() {
    assert_eq!(almanac::part_one(ALMANAC), Some(35));
}

#[test]
fn test_part_two_05() {
    assert_eq!(almanac::part_two(ALMANAC), Some(46));
}

const RACES: &str = "Time:      7  15   30\nDistance:  9  40  200";

#[test]
fn test_part_one_06() {
    assert_eq!(races::part_one(RACES), Some(288));
}

#[test]
fn test_part_two_06() {
    assert_eq!(races::part_two(RACES), Some(71503));
}

const HANDS: &str = "32T3K 765\nT55J5 684\nKK677 28\nKTJJT 220\nQQQJA 483";

#[test]
fn test_part_two_07() {
    assert_eq!(camel_cards::part_two(HANDS), Some(5905));
}

#[test]
fn test_part_one_08() {
    let input = "RL\n\nAAA = (BBB, CCC)\nBBB = (DDD, EEE)\nCCC = (ZZZ, GGG)\nDDD = (DDD, DDD)\nEEE = (EEE, EEE)\nGGG = (GGG, GGG)\nZZZ = (ZZZ, ZZZ)";
    assert_eq!(network::part_one(input), Some(2));
}

#[test]
fn test_part_two_08() {
    let input = "LR\n\n11A = (11B, XXX)\n11B = (XXX, 11Z)\n11Z = (11B, XXX)\n22A = (22B, XXX)\n22B = (22C, 22C)\n22C = (22Z, 22Z)\n22Z = (22B, 22B)\nXXX = (XXX, XXX)";
    assert_eq!(network::part_two(input), Some(6));
}

const REPORT: &str = "0 3 6 9 12 15\n1 3 6 10 15 21\n10 13 16 21 30 45";

#[test]
fn test_part_one_09() {
    assert_eq!(extrapolation::part_one(REPORT), Some(114));
}

#[test]
fn test_part_two_09() {
    assert_eq!(extrapolation::part_two(REPORT), Some(2));
}

#[test]
fn test_part_one_10() {
    let input = "7-F7-\n.FJ|7\nSJLL7\n|F--J\nLJ.LJ";
    assert_eq!(pipe_maze::part_one(input), Some(8));
}

#[test]
fn test_part_two_10() {
    let input = "FF7FSF7F7F7F7F7F---7\nL|LJ||||||||||||F--J\nFL-7LJLJ||||||LJL-77\nF--JF--7||LJLJ7F7FJ-\nL---JF-JLJ.||-FJLJJ7\n|F|F-JF---7F7-L7L|7|\n|FFJF7L7F-JF7|JL---7\n7-L-JL7||F7|L7F-7F7|\nL.L7LFJ|||||FJL7||LJ\nL7JLJL-JLJLJL--JLJ.L";
    assert_eq!(pipe_maze::part_two(input), Some(10));
}
