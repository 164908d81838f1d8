use puzzles::scratchcards::{eval_cascading_scratchcards, eval_scratchcard};
use puzzles::text::{filter_empty_lines, to_line_vector};

#[test]
fn test_scratchcards_example_1() {
    let input = r#"
            Card 1: 41 48 83 86 17 | 83 86  6 31 17  9 48 53
            Card 2: 13 32 20 16 61 | 61 30 68 82 17 32 24 19
            Card 3:  1 21 53 59 44 | 69 82 63 72 16 21 14  1
            Card 4: 41 92 73 84 69 | 59 84 76 51 58  5 54 83
            Card 5: 87 83 26 28 32 | 88 30 70 12 93 22 82 36
            Card 6: 31 18 13 56 72 | 74 77 10 23 35 67 36 11
            "#;
    let input = to_line_vector(input.to_string());
    let input = filter_empty_lines(input);

    let mut power = 0;
    for line in input {
        let card = eval_scratchcard(line);
        power += card.power;
    }
    assert_eq!(power, 13);
}

#[test]
fn test_scratchcards_example_2() {
    let input = r#"
            Card 1: 41 48 83 86 17 | 83 86  6 31 17  9 48 53
            Card 2: 13 32 20 16 61 | 61 30 68 82 17 32 24 19
            Card 3:  1 21 53 59 44 | 69 82 63 72 16 21 14  1
            Card 4: 41 92 73 84 69 | 59 84 76 51 58  5 54 83
            Card 5: 87 83 26 28 32 | 88 30 70 12 93 22 82 36
            Card 6: 31 18 13 56 72 | 74 77 10 23 35 67 36 11
            "#;
    let input = to_line_vector(input.to_string());
    let input = filter_empty_lines(input);

    let num_cards = eval_cascading_scratchcards(input);
    assert_eq!(num_cards, 30);
}

#[test]
fn eval_scratchcard_fields() {
    let card = eval_scratchcard(
        "Card 1: 41 48 83 86 17 | 83 86  6 31 17  9 48 53".to_string(),
    );
    assert_eq!(card.card_number, 1);
    assert_eq!(card.num_wins, 4);
    assert_eq!(card.power, 8);
    assert_eq!(card.count, 1);

    let loser = eval_scratchcard(
        "Card 5: 87 83 26 28 32 | 88 30 70 12 93 22 82 36".to_string(),
    );
    assert_eq!(loser.card_number, 5);
    assert_eq!(loser.num_wins, 0);
    assert_eq!(loser.power, 0);
    assert_eq!(loser.count, 0);
}

#[test]
fn eval_scratchcard_counts_every_equal_pair() {
    // both 5s on the left pair with the 5 on the right
    let card = eval_scratchcard("Card 2: 5 5 | 5".to_string());
    assert_eq!(card.num_wins, 2);
    assert_eq!(card.power, 2);
}

#[test]
fn eval_scratchcard_compares_tokens_as_text() {
    // `07` and `7` are different tokens, so they do not match
    let card = eval_scratchcard("Card 3: 07 | 7".to_string());
    assert_eq!(card.num_wins, 0);
    assert_eq!(card.power, 0);
}

#[test]
fn cascading_single_card_without_wins() {
    let total = eval_cascading_scratchcards(vec!["Card 1: 1 | 2".to_string()]);
    assert_eq!(total, 1);
}

#[test]
fn cascading_chain_doubles_counts() {
    // card 1 copies card 2, every copy of card 2 copies card 3
    let input = vec![
        "Card 1: 1 | 1".to_string(),
        "Card 2: 2 | 2".to_string(),
        "Card 3: 3 | 4".to_string(),
    ];
    assert_eq!(eval_cascading_scratchcards(input), 6);
}
