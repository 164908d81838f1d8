use puzzles::calibration::{filter_outer_digits, sum_outer_digits, words_to_digits};
use puzzles::text::{filter_empty_lines, to_line_vector};

#[test]
fn test_sum_outer_digits_example_1() {
    let input = r#"
            1abc2
            pqr3stu8vwx
            a1b2c3d4e5f
            treb7uchet
            "#;
    let input = to_line_vector(input.to_string());
    let vec = filter_empty_lines(input);
    let vec = filter_outer_digits(vec);
    let sum = sum_outer_digits(&vec);
    assert_eq!(sum, 142);
}

#[test]
fn test_sum_outer_digits_example_2() {
    let input = r#"
            two1nine
            eightwothree
            abcone2threexyz
            xtwone3four
            4nineeightseven2
            zoneight234
            7pqrstsixteen
            "#;
    let input = to_line_vector(input.to_string());
    let vec = filter_empty_lines(input);
    let vec = words_to_digits(vec);
    let vec = filter_outer_digits(vec);
    let sum = sum_outer_digits(&vec);
    assert_eq!(sum, 281);
}

#[test]
fn filter_outer_digits_takes_first_and_last() {
    let vec = vec!["a1b2c3".to_string(), "7".to_string()];
    let out = filter_outer_digits(vec);
    assert_eq!(out, vec!["13".to_string(), "77".to_string()]);
}

#[test]
fn sum_outer_digits_ignores_unparsable_lines() {
    let vec = vec!["+12".to_string(), "x".to_string(), "99".to_string(), "".to_string()];
    assert_eq!(sum_outer_digits(&vec), 111);
}

#[test]
fn words_to_digits_rewrites_overlapping_words() {
    let out = words_to_digits(vec!["eightwothree".to_string(), "zoneight234".to_string()]);
    assert_eq!(out, vec!["e8t2ot3e".to_string(), "zo1e8t234".to_string()]);
}
