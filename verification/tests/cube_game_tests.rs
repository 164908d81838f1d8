use puzzles::cube_game::{Game, GameParseError, KubeConfig};
use puzzles::text::{filter_empty_lines, to_line_vector};

#[test]
fn test_kube_game_example_1() {
    let input = r#"
            Game 1: 3 blue, 4 red; 1 red, 2 green, 6 blue; 2 green
            Game 2: 1 blue, 2 green; 3 green, 4 blue, 1 red; 1 green, 1 blue
            Game 3: 8 green, 6 blue, 20 red; 5 blue, 4 red, 13 green; 5 green, 1 red
            Game 4: 1 green, 3 red, 6 blue; 3 green, 6 red; 3 green, 15 blue, 14 red
            Game 5: 6 red, 1 blue, 3 green; 2 blue, 1 red, 2 green
            "#;
    let input = to_line_vector(input.to_string());
    let input = filter_empty_lines(input);

    let games = Game::parse_games(input).unwrap();
    let challenge = KubeConfig { red: 12, green: 13, blue: 14 };
    let sum_ids = games
        .into_iter()
        .filter(|g| g.is_possible(&challenge))
        .fold(0, |acc, g| acc + g.id);

    assert_eq!(sum_ids, 8);
}

#[test]
fn test_kube_game_example_2() {
    let input = r#"
            Game 1: 3 blue, 4 red; 1 red, 2 green, 6 blue; 2 green
            Game 2: 1 blue, 2 green; 3 green, 4 blue, 1 red; 1 green, 1 blue
            Game 3: 8 green, 6 blue, 20 red; 5 blue, 4 red, 13 green; 5 green, 1 red
            Game 4: 1 green, 3 red, 6 blue; 3 green, 6 red; 3 green, 15 blue, 14 red
            Game 5: 6 red, 1 blue, 3 green; 2 blue, 1 red, 2 green
            "#;
    let input = to_line_vector(input.to_string());
    let input = filter_empty_lines(input);

    let mut total_summed_power: u64 = 0;
    let games = Game::parse_games(input).unwrap();
    for game in games {
        let (max_red, max_green, max_blue) = game.rounds.iter().fold(
            (0, 0, 0),
            |(r, g, b), config| (r.max(config.red), g.max(config.green), b.max(config.blue)),
        );

        total_summed_power += max_red as u64 * max_green as u64 * max_blue as u64;
    }

    assert_eq!(total_summed_power, 2286);
}

#[test]
fn game_new_parses_id_and_rounds() {
    let g = Game::new("Game 7: 1 red, 2 green; 3 blue".to_string()).unwrap();
    assert_eq!(g.id, 7);
    assert_eq!(g.rounds.len(), 2);
    assert_eq!(g.rounds[0], KubeConfig { red: 1, green: 2, blue: 0 });
    assert_eq!(g.rounds[1], KubeConfig { red: 0, green: 0, blue: 3 });
}

#[test]
fn game_new_reports_missing_id_split() {
    let r = Game::new("Game7: 3 blue".to_string());
    assert_eq!(r.unwrap_err(), GameParseError::IdSplit);
}

#[test]
fn game_new_reports_missing_kube_split() {
    let r = Game::new("Game 7: 3blue".to_string());
    assert_eq!(r.unwrap_err(), GameParseError::KubeSplit);
}

#[test]
fn game_new_reports_unknown_color() {
    let r = Game::new("Game 7: 3 purple".to_string());
    assert_eq!(r.unwrap_err(), GameParseError::UnknownColor);
}

#[test]
fn parse_games_stops_at_first_error() {
    let input = vec![
        "Game 1: 1 red".to_string(),
        "Game 2: 2 magenta".to_string(),
        "Game 3: 3blue".to_string(),
    ];
    let r = Game::parse_games(input);
    assert_eq!(r.unwrap_err(), GameParseError::UnknownColor);
}

#[test]
fn is_possible_rejects_a_larger_round() {
    let g = Game::new("Game 1: 1 red; 20 green".to_string()).unwrap();
    let challenge = KubeConfig { red: 12, green: 13, blue: 14 };
    assert!(!g.is_possible(&challenge));
    let g2 = Game::new("Game 2: 12 red, 13 green, 14 blue".to_string()).unwrap();
    assert!(g2.is_possible(&challenge));
}

#[test]
fn later_kube_of_same_color_overrides_earlier() {
    let g = Game::new("Game 1: 2 red, 5 red".to_string()).unwrap();
    assert_eq!(g.rounds[0], KubeConfig { red: 5, green: 0, blue: 0 });
}
