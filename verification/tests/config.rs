use mtngin::config::{
    max_turns, oracle_cards_uri, random_seed, starting_life, validate_run_config, ConfigError,
    PlayerConfig, RunConfig, ScryfallBulkItem,
};

fn config(format: &str, iterations: usize, names: (&str, &str), decks: (&str, &str)) -> RunConfig {
    RunConfig {
        format: format.to_string(),
        iterations,
        seed: None,
        max_turns: None,
        db_path: "db.json".to_string(),
        player1: PlayerConfig {
            name: names.0.to_string(),
            deck_path: decks.0.to_string(),
            starting_life: None,
        },
        player2: PlayerConfig {
            name: names.1.to_string(),
            deck_path: decks.1.to_string(),
            starting_life: Some(30),
        },
        output_path: None,
    }
}

#[test]
fn a_run_needs_games() {
    let error = validate_run_config(&config("modern", 0, ("", ""), ("a", "b"))).unwrap_err();
    assert_eq!(error, ConfigError::NoIterations);
    assert_eq!(error.message(), "iterations must be greater than 0");
}

#[test]
fn a_run_needs_names() {
    for names in [("", "B"), ("A", "  "), ("\t", "\n")] {
        let error = validate_run_config(&config("yard", 1, names, ("a", "b"))).unwrap_err();
        assert_eq!(error, ConfigError::EmptyPlayerName);
        assert_eq!(error.message(), "player names must not be empty");
    }
}

#[test]
fn the_yard_needs_one_deck() {
    let error = validate_run_config(&config("YARD", 1, ("A", "B"), ("a", "b"))).unwrap_err();
    assert_eq!(error, ConfigError::DifferentDecks);
    assert_eq!(
        error.message(),
        "yard format requires both players to reference the same deck_path"
    );
    assert_eq!(validate_run_config(&config("yard", 1, ("A", "B"), ("a ", " a"))), Ok(()));
    assert_eq!(validate_run_config(&config("modern", 1, ("A", "B"), ("a", "b"))), Ok(()));
}

#[test]
fn what_is_not_configured_has_a_default() {
    let mut cfg = config("modern", 1, ("A", "B"), ("a", "b"));
    assert_eq!(max_turns(&cfg), 30);
    assert_eq!(random_seed(&cfg), 42);
    assert_eq!(starting_life(&cfg.player1), 20);
    assert_eq!(starting_life(&cfg.player2), 30);
    cfg.max_turns = Some(0);
    cfg.seed = Some(7);
    assert_eq!(max_turns(&cfg), 0);
    assert_eq!(random_seed(&cfg), 7);
}

#[test]
fn oracle_cards_are_found_by_type() {
    let item = |data_type: &str, uri: &str| ScryfallBulkItem {
        data_type: data_type.to_string(),
        download_uri: uri.to_string(),
    };
    let items =
        vec![item("all_cards", "u1"), item("oracle_cards", "u2"), item("oracle_cards", "u3")];
    assert_eq!(oracle_cards_uri(&items), Some("u2".to_string()));
    assert_eq!(oracle_cards_uri(&vec![item("rulings", "u1")]), None);
    assert_eq!(oracle_cards_uri(&Vec::new()), None);
}
