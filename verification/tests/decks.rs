use mtngin::cards::{CardDb, CardKind, CardProfile, DeckCard};
use mtngin::decks::{
    deck_from_entries, is_structured_extension, is_yard_format, parse_deck_line, parse_deck_list,
    rules_for_format, validate_deck, DeckError, DeckListEntry, DeckListError,
};

fn db() -> CardDb {
    let mut db = CardDb::new();
    for (name, basic, black) in [
        ("Swamp", true, true),
        ("Mountain", true, false),
        ("Lightning Bolt", false, false),
        ("Blood Pet", false, true),
    ] {
        db.insert(
            name.to_lowercase(),
            CardProfile {
                name: name.to_string(),
                kind: CardKind::OtherSpell,
                cmc: 1,
                is_basic_land: basic,
                is_mono_black_legal: black,
            },
        );
    }
    db
}

fn names(deck: &[DeckCard]) -> Vec<&str> {
    deck.iter().map(|card| card.name.as_str()).collect()
}

fn deck(text: &str) -> Vec<DeckCard> {
    parse_deck_list(text).unwrap()
}

#[test]
fn test_parse_deck_line() {
    let parsed = parse_deck_line("4 Lightning Bolt").unwrap();
    assert_eq!(parsed.0, 4);
    assert_eq!(parsed.1, "Lightning Bolt");
}

#[test]
fn deck_lines_need_a_count_and_a_name() {
    assert_eq!(parse_deck_line("12   Fireball "), Some((12, "Fireball")));
    assert_eq!(parse_deck_line("+3 Shock"), Some((3, "Shock")));
    assert_eq!(parse_deck_line("0 Shock"), Some((0, "Shock")));
    assert_eq!(parse_deck_line("4"), None);
    assert_eq!(parse_deck_line("4 "), None);
    assert_eq!(parse_deck_line("4    "), None);
    assert_eq!(parse_deck_line("-4 Shock"), None);
    assert_eq!(parse_deck_line("4x Shock"), None);
    assert_eq!(parse_deck_line(" 4 Shock"), None);
    assert_eq!(parse_deck_line("4\tShock"), None);
    assert_eq!(parse_deck_line(""), None);
    assert_eq!(parse_deck_line("99999999999999999999999 Shock"), None);
}

#[test]
fn test_parse_deck_ignores_sideboard() {
    let deck =
        parse_deck_list("4 Lightning Bolt\n56 Mountain\nSideboard\n15 Shatterstorm\n").unwrap();
    assert_eq!(deck.len(), 60);
}

#[test]
fn deck_lists_pass_over_blank_lines_and_comments() {
    let deck = deck("# burn\r\n\r\n  2 Shock  \r\n\n#4 Ponder\n1 Mountain\n  SIDEBOARD \nnot a line");
    assert_eq!(names(&deck), vec!["Shock", "Shock", "Mountain"]);
}

#[test]
fn deck_lists_fail_at_the_first_bad_line() {
    match parse_deck_list("2 Shock\n  Mountain x \nbad\n") {
        Err(error) => {
            assert_eq!(error, DeckListError::InvalidLine("Mountain x".to_string()));
            assert_eq!(
                error.message("red.deck"),
                "invalid deck line 'Mountain x', expected '<count> <card name>'"
            );
        }
        Ok(_) => panic!("accepted"),
    }
}

#[test]
fn deck_lists_need_a_card() {
    for text in ["", "\n\n", "# nothing\n", "Sideboard\n4 Shock\n", "0 Shock"] {
        match parse_deck_list(text) {
            Err(error) => {
                assert_eq!(error, DeckListError::NoCards);
                assert_eq!(error.message("red.deck"), "deck red.deck has zero cards");
            }
            Ok(_) => panic!("accepted"),
        }
    }
}

#[test]
fn test_load_deck_from_yaml() {
    assert!(is_structured_extension(Some("yaml")));
    let text = "cards:\n  - count: 2\n    name: Swamp\n  - count: 1\n    name: Dark Ritual\n";
    let parsed: serde_yaml::Value = serde_yaml::from_str(text).unwrap();
    let entries: Vec<DeckListEntry> = parsed["cards"]
        .as_sequence()
        .unwrap()
        .iter()
        .map(|entry| DeckListEntry {
            count: entry["count"].as_u64().unwrap() as usize,
            name: entry["name"].as_str().unwrap().to_string(),
        })
        .collect();
    let deck = deck_from_entries(&entries).unwrap();
    assert_eq!(deck.len(), 3);
    assert_eq!(deck[0].name, "Swamp");
}

#[test]
fn both_kinds_of_lists_name_the_same_cards() {
    let entries = vec![
        DeckListEntry { count: 3, name: "Swamp".to_string() },
        DeckListEntry { count: 0, name: "Ponder".to_string() },
        DeckListEntry { count: 1, name: "Blood Pet".to_string() },
    ];
    let structured = deck_from_entries(&entries).unwrap();
    let plain = deck("3 Swamp\n0 Ponder\n1 Blood Pet");
    assert_eq!(names(&structured), names(&plain));
}

#[test]
fn structured_lists_need_names_and_cards() {
    let blank = vec![
        DeckListEntry { count: 1, name: "Swamp".to_string() },
        DeckListEntry { count: 0, name: " \t".to_string() },
    ];
    match deck_from_entries(&blank) {
        Err(error) => {
            assert_eq!(error, DeckListError::EmptyName);
            assert_eq!(error.message("a.yaml"), "deck a.yaml contains an empty card name");
        }
        Ok(_) => panic!("accepted"),
    }
    assert!(matches!(deck_from_entries(&Vec::new()), Err(DeckListError::NoCards)));
}

#[test]
fn structured_lists_are_told_by_their_extension() {
    assert!(is_structured_extension(Some("yml")));
    assert!(!is_structured_extension(Some("YAML")));
    assert!(!is_structured_extension(Some("deck")));
    assert!(!is_structured_extension(None));
}

#[test]
fn test_rules_for_modern() {
    let rules = rules_for_format("modern").unwrap();
    assert_eq!(rules.minimum_deck_size, 60);
    assert_eq!(rules.max_non_basic_copies, 4);
}

#[test]
fn test_rules_for_yard() {
    let rules = rules_for_format("yard").unwrap();
    assert_eq!(rules.minimum_deck_size, 60);
}

#[test]
fn formats_are_known_in_any_case() {
    for format in ["Standard", "PIONEER", "modern", "Legacy", "vintage", "pAUPER"] {
        let rules = rules_for_format(format).unwrap();
        assert_eq!((rules.minimum_deck_size, rules.max_non_basic_copies), (60, 4));
    }
    let commander = rules_for_format("Commander").unwrap();
    assert_eq!((commander.minimum_deck_size, commander.max_non_basic_copies), (100, 1));
    assert_eq!(rules_for_format("yard").unwrap().max_non_basic_copies, 0);
    assert!(rules_for_format("brawl").is_none());
    assert!(rules_for_format("modern ").is_none());
    assert!(is_yard_format("YaRd"));
    assert!(!is_yard_format("yards"));
}

#[test]
fn a_legal_deck_is_accepted() {
    let deck = deck("4 lightning bolt\n56 MOUNTAIN");
    assert_eq!(validate_deck("Modern", &deck, &db()), Ok(()));
}

#[test]
fn a_format_must_be_known() {
    let error = validate_deck("brawl", &deck("60 Swamp"), &db()).unwrap_err();
    assert_eq!(error, DeckError::UnsupportedFormat { format: "brawl".to_string() });
    assert_eq!(error.message(), "unsupported format 'brawl'");
}

#[test]
fn a_deck_must_be_large_enough() {
    let error = validate_deck("modern", &deck("59 Swamp"), &db()).unwrap_err();
    assert_eq!(error.message(), "deck has 59 cards; minimum for modern is 60");
    assert!(matches!(error, DeckError::TooFewCards { count: 59, minimum: 60, .. }));
    assert_eq!(
        validate_deck("COMMANDER", &deck("60 Swamp"), &db()).unwrap_err().message(),
        "deck has 60 cards; minimum for COMMANDER is 100"
    );
}

#[test]
fn every_card_must_be_known() {
    let error = validate_deck("modern", &deck("1 Ponder\n60 Swamp"), &db()).unwrap_err();
    assert_eq!(error, DeckError::UnknownCard { name: "Ponder".to_string() });
    assert_eq!(error.message(), "card 'Ponder' not found in local DB");
}

#[test]
fn copies_are_limited_but_for_basic_lands() {
    let error =
        validate_deck("modern", &deck("3 Lightning Bolt\n60 Swamp\n2 LIGHTNING BOLT"), &db())
            .unwrap_err();
    assert_eq!(
        error.message(),
        "card 'Lightning Bolt' has 5 copies, max allowed in modern is 4"
    );
    assert!(matches!(error, DeckError::TooManyCopies { copies: 5, maximum: 4, .. }));
    assert_eq!(validate_deck("commander", &deck("1 Blood Pet\n99 Swamp"), &db()), Ok(()));
}

#[test]
fn the_yard_is_black_and_does_not_count_copies() {
    assert_eq!(validate_deck("Yard", &deck("30 Blood Pet\n30 Swamp"), &db()), Ok(()));
    let error = validate_deck("yard", &deck("60 Blood Pet\n1 Mountain"), &db()).unwrap_err();
    assert_eq!(error, DeckError::NotMonoBlack { name: "Mountain".to_string() });
    assert_eq!(
        error.message(),
        "yard format only allows mono-black/colorless cards; 'Mountain' is not legal"
    );
}
