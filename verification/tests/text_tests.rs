use puzzles::text::{filter_empty_lines, to_line_vector};

#[test]
fn to_line_vector_splits_and_trims() {
    let lines = to_line_vector("  a \n\n\tb c\u{b}\n".to_string());
    assert_eq!(
        lines,
        vec!["a".to_string(), "".to_string(), "b c".to_string(), "".to_string()]
    );
}

#[test]
fn filter_empty_lines_drops_only_empty_lines() {
    let lines = vec!["a".to_string(), "".to_string(), " ".to_string(), "b".to_string()];
    let out = filter_empty_lines(lines);
    assert_eq!(out, vec!["a".to_string(), " ".to_string(), "b".to_string()]);
}

#[test]
fn empty_input_is_one_empty_line() {
    let lines = to_line_vector("".to_string());
    assert_eq!(lines, vec!["".to_string()]);
}
