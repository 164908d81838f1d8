use puzzles::schematic::EngineSchematic;
use puzzles::text::{filter_empty_lines, to_line_vector};

#[test]
fn test_engine_part_example_1() {
    let input = r#"
            467..114..
            ...*......
            ..35..633.
            ......#...
            617*......
            .....+.58.
            ..592.....
            ......755.
            ...$.*....
            .664.598..
            "#;
    let input = to_line_vector(input.to_string());
    let input = filter_empty_lines(input);

    let mut m = EngineSchematic::new(input);
    let sum = m.gather_numbers();

    assert_eq!(sum, 4361);
}

#[test]
fn test_engine_part_example_2() {
    let input = r#"
            467..114..
            ...*......
            ..35..633.
            ......#...
            617*......
            .....+.58.
            ..592.....
            ......755.
            ...$.*....
            .664.598..
            "#;
    let input = to_line_vector(input.to_string());
    let input = filter_empty_lines(input);

    let mut m = EngineSchematic::new(input);
    let sum = m.gather_gear_ratios();

    assert_eq!(sum, 467835);
}

#[test]
fn get_handles_out_of_range_and_negative_indices() {
    let m = EngineSchematic::new(vec!["ab".to_string(), "cd".to_string()]);
    assert_eq!(m.get(0, 1), Some(&'b'));
    assert_eq!(m.get(1, 0), Some(&'c'));
    assert!(m.get(-1, 0).is_none());
    assert!(m.get(0, -1).is_none());
    assert!(m.get(2, 0).is_none());
    assert!(m.get(0, 2).is_none());
}

#[test]
fn get_number_expands_to_the_whole_run() {
    let m = EngineSchematic::new(vec!["..617*..".to_string()]);
    assert_eq!(m.get_number(0, 3), Some(617));
    assert_eq!(m.get_number(0, 2), Some(617));
    assert_eq!(m.get_number(0, 4), Some(617));
    assert_eq!(m.get_number(0, 5), None);
    assert_eq!(m.get_number(0, 0), None);
}

#[test]
fn delete_number_dots_out_the_run() {
    let mut m = EngineSchematic::new(vec!["..617*..".to_string()]);
    m.delete_number(0, 3);
    assert_eq!(m.get(0, 2), Some(&'.'));
    assert_eq!(m.get(0, 3), Some(&'.'));
    assert_eq!(m.get(0, 4), Some(&'.'));
    assert_eq!(m.get(0, 5), Some(&'*'));
}

#[test]
fn get_and_delete_number_reads_once() {
    let mut m = EngineSchematic::new(vec!["12*34".to_string()]);
    assert_eq!(m.get_and_delete_number(0, 0), 12);
    assert_eq!(m.get_and_delete_number(0, 0), 0);
    assert_eq!(m.get_and_delete_number(0, 4), 34);
}

#[test]
fn is_number_treats_letters_as_number_cells() {
    let m = EngineSchematic::new(vec![".a1.".to_string()]);
    assert!(m.is_number(0, 1));
    assert!(m.is_number(0, 2));
    assert!(!m.is_number(0, 0));
    assert!(!m.is_number(0, 3));
    assert!(!m.is_number(0, 4));
}

#[test]
fn gather_numbers_counts_each_number_once() {
    let input = vec!["1.1".to_string(), ".*.".to_string(), "..2".to_string()];
    let mut m = EngineSchematic::new(input);
    assert_eq!(m.gather_numbers(), 4);
}

#[test]
fn gather_gear_ratios_needs_exactly_two_numbers() {
    let one = vec!["1*.".to_string(), "...".to_string()];
    let mut m = EngineSchematic::new(one);
    assert_eq!(m.gather_gear_ratios(), 0);

    let two = vec!["3*4".to_string(), "...".to_string()];
    let mut m = EngineSchematic::new(two);
    assert_eq!(m.gather_gear_ratios(), 12);

    // a third neighbouring number is erased but not multiplied in
    let three = vec!["3*4".to_string(), ".5.".to_string()];
    let mut m = EngineSchematic::new(three);
    assert_eq!(m.gather_gear_ratios(), 12);
}

#[test]
fn matrix_rows_hold_the_line_characters() {
    let m = puzzles::grid::Matrix2D::new(vec!["ab".to_string(), "cd".to_string()]);
    assert_eq!(m.data, vec![vec!['a', 'b'], vec!['c', 'd']]);
}
