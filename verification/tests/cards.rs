use mtngin::cards::{
    card_kind_for, card_profile_for, choose_kind, classify_card, copy_cards, index_cards,
    normalize_name, parse_damage, parse_damage_amount, parse_mana_ritual, CardDb, CardKind,
    CardProfile, DeckCard, ScryfallCard,
};

fn card(name: &str, type_line: &str, text: Option<&str>) -> ScryfallCard {
    ScryfallCard {
        name: name.to_string(),
        type_line: type_line.to_string(),
        oracle_text: text.map(|t| t.to_string()),
        cmc: 2,
        color_identity: None,
        power: None,
        toughness: None,
    }
}

#[test]
fn test_parse_damage() {
    assert_eq!(
        parse_damage("Lightning Bolt deals 3 damage to any target."),
        Some(3)
    );
    assert_eq!(parse_damage("Draw two cards."), None);
}

#[test]
fn damage_goes_to_one_of_four_targets() {
    assert_eq!(parse_damage("Shock DEALS 2 Damage to Any Target."), Some(2));
    assert_eq!(parse_damage("It deals 10 damage to target creature."), Some(10));
    assert_eq!(parse_damage("It deals 5 damage to target player or planeswalker."), Some(5));
    assert_eq!(parse_damage("It deals 1 damage to each opponent."), Some(1));
    assert_eq!(parse_damage("It deals 4 damage to each creature."), None);
    assert_eq!(parse_damage("It deals X damage to any target."), None);
    assert_eq!(parse_damage("It deals 99999999999 damage to any target."), None);
    assert_eq!(
        parse_damage("deals 1 damage to you. deals 6 damage to any target. deals 7 damage to any target"),
        Some(6)
    );
}

#[test]
fn a_captured_amount_is_a_number() {
    assert_eq!(parse_damage_amount(Some("3".to_string())), Some(3));
    assert_eq!(parse_damage_amount(Some("x".to_string())), None);
    assert_eq!(parse_damage_amount(None), None);
}

#[test]
fn rituals_add_black_mana() {
    assert_eq!(parse_mana_ritual("Add {B}{B}{B}."), Some(3));
    assert_eq!(parse_mana_ritual("{T}: Add {B} or {R}."), Some(1));
    assert_eq!(parse_mana_ritual("Add {R}{R}{R}."), None);
    assert_eq!(parse_mana_ritual("Pay {B}{B}: draw a card."), None);
}

#[test]
fn names_are_folded_beyond_ascii() {
    assert_eq!(normalize_name("Street WRAITH"), "street wraith");
    assert_eq!(normalize_name("Æther Vial"), "æther vial");
    assert_eq!(normalize_name("ΑΣ"), "ας");
}

#[test]
fn names_that_differ_in_ascii_case_mean_one_card() {
    let db = index_cards(vec![
        card("Æther Vial", "Artifact", None),
        card("Lim-Dûl", "Creature — Wizard", None),
        card("ΑΣ bΣ Σc dΣ", "Land", None),
    ]);
    for (a, b) in [
        ("Æther Vial", "ÆTHER VIAL"),
        ("æther vial", "ætheR viaL"),
        ("Lim-Dûl", "lIM-dûL"),
        ("ΑΣ bΣ Σc dΣ", "ΑΣ BΣ ΣC DΣ"),
        ("Nobody É", "NOBODY É"),
    ] {
        assert!(a.eq_ignore_ascii_case(b));
        assert_eq!(normalize_name(a), normalize_name(b));
        let first = card_profile_for(&DeckCard { name: a.to_string() }, &db);
        let second = card_profile_for(&DeckCard { name: b.to_string() }, &db);
        assert_eq!(first.map(|p| p.name.as_str()), second.map(|p| p.name.as_str()));
        assert_eq!(first.is_some(), !a.starts_with("Nobody"));
    }
}

#[test]
fn kinds_follow_the_type_line_first() {
    assert_eq!(classify_card(&card("Swamp", "Basic Land — Swamp", Some("({T}: Add {B}.)"))), CardKind::Land);
    assert_eq!(
        classify_card(&card("Dryad Arbor", "Land Creature — Forest Dryad", None)),
        CardKind::Land
    );
    let mut bear = card("Bear", "Creature — Bear", Some("Add {B}."));
    bear.power = Some("2".to_string());
    bear.toughness = Some("1+*".to_string());
    assert_eq!(classify_card(&bear), CardKind::Creature { power: 2, toughness: 1 });
    assert_eq!(
        classify_card(&card("Wall", "Creature — Wall", None)),
        CardKind::Creature { power: 1, toughness: 1 }
    );
    assert_eq!(
        classify_card(&card("Dark Ritual", "Instant", Some("Add {B}{B}{B}."))),
        CardKind::ManaRitual { mana: 3 }
    );
    assert_eq!(
        classify_card(&card("Lightning Bolt", "Instant", Some("Lightning Bolt deals 3 damage to any target."))),
        CardKind::Burn { damage: 3 }
    );
    assert_eq!(
        classify_card(&card(
            "Both",
            "Sorcery",
            Some("Add {B}. Both deals 3 damage to any target.")
        )),
        CardKind::ManaRitual { mana: 1 }
    );
    assert_eq!(classify_card(&card("Duress", "Sorcery", Some("Look at a hand."))), CardKind::OtherSpell);
    assert_eq!(classify_card(&card("Blank", "Sorcery", None)), CardKind::OtherSpell);
}

#[test]
fn a_kind_is_chosen_from_what_the_text_does() {
    let spell = card("Spell", "Instant", None);
    assert_eq!(choose_kind(&spell, Some(2), Some(3)), CardKind::ManaRitual { mana: 2 });
    assert_eq!(choose_kind(&spell, None, Some(3)), CardKind::Burn { damage: 3 });
    assert_eq!(choose_kind(&spell, None, None), CardKind::OtherSpell);
    let land = card("Land", "Legendary LAND", None);
    assert_eq!(choose_kind(&land, Some(2), Some(3)), CardKind::Land);
}

#[test]
fn a_profile_keeps_what_the_rules_need() {
    let mut swamp = card("Swamp", "Basic Land — Swamp", None);
    swamp.cmc = 0;
    swamp.color_identity = Some(vec!["B".to_string()]);
    let profile = CardProfile::from_scryfall(swamp);
    assert_eq!(profile.name, "Swamp");
    assert_eq!(profile.kind, CardKind::Land);
    assert_eq!(profile.cmc, 0);
    assert!(profile.is_basic_land);
    assert!(profile.is_mono_black_legal);

    let mut gold = card("Gold", "Land", None);
    gold.color_identity = Some(vec!["B".to_string(), "R".to_string()]);
    let profile = CardProfile::from_scryfall(gold);
    assert!(!profile.is_basic_land);
    assert!(!profile.is_mono_black_legal);

    let mut plain = card("Plain", "Artifact", None);
    plain.color_identity = Some(Vec::new());
    assert!(CardProfile::from_scryfall(plain).is_mono_black_legal);
    assert!(CardProfile::from_scryfall(card("None", "Artifact", None)).is_mono_black_legal);
}

#[test]
fn the_first_card_of_a_name_counts() {
    let db = index_cards(vec![
        card("Twin", "Land", None),
        card("TWIN", "Creature — Twin", None),
        card("Other", "Sorcery", None),
    ]);
    let twin = DeckCard { name: "tWiN".to_string() };
    let profile = card_profile_for(&twin, &db).unwrap();
    assert_eq!(profile.name, "Twin");
    assert_eq!(profile.kind, CardKind::Land);
    assert_eq!(card_kind_for(&twin, &db), CardKind::Land);
    assert!(db.get("other").is_some());
    assert!(db.get("Other").is_none());
}

#[test]
fn an_unknown_card_is_some_other_spell() {
    let db = CardDb::new();
    let card = DeckCard { name: "Nobody".to_string() };
    assert!(card_profile_for(&card, &db).is_none());
    assert_eq!(card_kind_for(&card, &db), CardKind::OtherSpell);
}

#[test]
fn a_later_profile_takes_the_place_of_an_earlier_one() {
    let mut db = CardDb::new();
    db.insert("x".to_string(), CardProfile::from_scryfall(card("First", "Land", None)));
    db.insert("x".to_string(), CardProfile::from_scryfall(card("Second", "Land", None)));
    assert_eq!(db.get("x").unwrap().clone().name, "Second");
}

#[test]
fn copies_keep_the_order() {
    let cards = vec![DeckCard { name: "a".to_string() }, DeckCard { name: "b".to_string() }];
    let copy = copy_cards(&cards);
    assert_eq!(copy.len(), 2);
    assert_eq!(copy[0].name, "a");
    assert_eq!(copy[1].name, "b");
}
