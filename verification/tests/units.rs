//! Checks of the smaller public pieces of the solvers.

use puzzles::camel_cards::{analyze_hand_type, HandType};
use puzzles::extrapolation::{predict_next, predict_previous};
use puzzles::numbers::{gcd, lcm};
use puzzles::races::get_num_options_to_beat_record;
use puzzles::scratchcards::{get_score, num_hits};

#[test]
fn gcd_and_lcm() {
    assert_eq!(gcd(48, 18), 6);
    assert_eq!(gcd(7, 13), 1);
    assert_eq!(gcd(0, 5), 5);
    assert_eq!(lcm(4, 6), Some(12));
    assert_eq!(lcm(7, 13), Some(91));
    assert_eq!(lcm(2, 9), Some(18));
    assert_eq!(lcm(u64::MAX, u64::MAX - 1), None);
}

#[test]
fn race_option_counts() {
    assert_eq!(get_num_options_to_beat_record(7, 9), 4);
    assert_eq!(get_num_options_to_beat_record(15, 40), 8);
    assert_eq!(get_num_options_to_beat_record(30, 200), 9);
    assert_eq!(get_num_options_to_beat_record(0, 0), 0);
    assert_eq!(get_num_options_to_beat_record(2, 5), 0);
}

#[test]
fn card_scores() {
    let w = vec![41u64, 48, 83, 86, 17];
    let o = vec![83u64, 86, 6, 31, 17, 9, 48, 53];
    assert_eq!(num_hits(&w, &o), 4);
    assert_eq!(get_score(4), Some(8));
    assert_eq!(get_score(0), Some(0));
    assert_eq!(get_score(1), Some(1));
    // Duplicate owned numbers count once, as a set intersection does.
    let o2 = vec![83u64, 83, 83];
    assert_eq!(num_hits(&w, &o2), 1);
}

#[test]
fn hand_classification() {
    // Ranks: joker 0, digits 3..=10, T 11, Q 12, K 13, A 14.
    assert_eq!(analyze_hand_type(&vec![3, 3, 11, 3, 13]), HandType::ThreeOfAKind);
    assert_eq!(analyze_hand_type(&vec![11, 5, 5, 0, 5]), HandType::FourOfAKind);
    assert_eq!(analyze_hand_type(&vec![13, 13, 6, 7, 7]), HandType::TwoPairs);
    assert_eq!(analyze_hand_type(&vec![13, 11, 0, 0, 11]), HandType::FourOfAKind);
    assert_eq!(analyze_hand_type(&vec![12, 12, 12, 0, 14]), HandType::FourOfAKind);
    assert_eq!(analyze_hand_type(&vec![0, 0, 0, 0, 0]), HandType::FiveOfAKind);
    assert_eq!(analyze_hand_type(&vec![2, 3, 4, 5, 6]), HandType::HighCard);
    assert_eq!(analyze_hand_type(&vec![2, 2, 3, 3, 4]), HandType::TwoPairs);
    assert_eq!(analyze_hand_type(&vec![2, 2, 3, 3, 0]), HandType::FullHouse);
}

#[test]
fn extrapolation_lines() {
    assert_eq!(predict_next(&vec![0, 3, 6, 9, 12, 15]), Some(18));
    assert_eq!(predict_next(&vec![1, 3, 6, 10, 15, 21]), Some(28));
    assert_eq!(predict_next(&vec![10, 13, 16, 21, 30, 45]), Some(68));
    assert_eq!(predict_previous(&vec![10, 13, 16, 21, 30, 45]), Some(5));
    assert_eq!(predict_previous(&vec![0, 3, 6, 9, 12, 15]), Some(-3));
    assert_eq!(predict_next(&vec![]), Some(0));
    assert_eq!(predict_next(&vec![i64::MAX, i64::MIN]), None);
}

#[test]
fn malformed_inputs_are_rejected() {
    assert_eq!(puzzles::calibration::part_one("abc\n1b2"), None);
    assert_eq!(puzzles::cube_game::part_one("Game 1 3 blue"), None);
    assert_eq!(puzzles::scratchcards::part_one("Card 1: 1 2 3 4"), None);
    assert_eq!(puzzles::races::part_one("Times: 7\nDistance: 9"), None);
    assert_eq!(puzzles::network::part_one("RL\nAAA = (BBB, CCC)"), None);
    assert_eq!(puzzles::extrapolation::part_one("1 two 3"), None);
    assert_eq!(puzzles::almanac::part_one(""), None);
}

#[test]
fn zero_is_not_a_digit_in_the_word_ruleset() {
    // In the first ruleset any digit character counts; in the second,
    // the pattern lists only `1` through `9` and the spelled words, so
    // a `0` is skipped over.
    assert_eq!(puzzles::calibration::part_one("01"), Some(1));
    assert_eq!(puzzles::calibration::part_two("01"), Some(11));
    assert_eq!(puzzles::calibration::part_two("0zero0"), None);
    assert_eq!(puzzles::calibration::part_two("one0"), Some(11));
}

#[test]
fn camel_rulesets_agree() {
    // The joker reading is built into the card ranks, so both entry
    // points rank the same worked example identically.
    let hands = "32T3K 765\nT55J5 684\nKK677 28\nKTJJT 220\nQQQJA 483";
    assert_eq!(puzzles::camel_cards::part_one(hands), Some(5905));
    assert_eq!(
        puzzles::camel_cards::part_one(hands),
        puzzles::camel_cards::part_two(hands)
    );
}

#[test]
fn network_without_aaa_has_no_first_answer() {
    let input = "LR\n\n11A = (11Z, 11Z)\n11Z = (11A, 11A)";
    assert_eq!(puzzles::network::part_one(input), None);
    assert_eq!(puzzles::network::part_two(input), Some(1));
}
