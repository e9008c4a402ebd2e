use mtngin::cards::{CardDb, CardKind, CardProfile, DeckCard};
use mtngin::players::{
    choose_discard_index, discard_down_to_hand_size, discard_down_to_hand_size_yard, draw_card,
    draw_card_from_shared, play_land, put_in_yard_graveyard, untap, CreaturePermanent, OutOfRange,
    PlayerState,
};
use mtngin::seen::CardSet;

fn cards(names: &[&str]) -> Vec<DeckCard> {
    names.iter().map(|name| DeckCard { name: name.to_string() }).collect()
}

fn names(cards: &[DeckCard]) -> Vec<&str> {
    cards.iter().map(|card| card.name.as_str()).collect()
}

fn player(name: &str, library: &[&str], hand: &[&str]) -> PlayerState {
    PlayerState {
        name: name.to_string(),
        life: 20,
        library: cards(library),
        hand: cards(hand),
        battlefield: Vec::new(),
        graveyard: Vec::new(),
        lands_in_play: 0,
        mana_pool: 0,
        cards_seen: CardSet::new(),
    }
}

fn db(entries: &[(&str, CardKind, u32)]) -> CardDb {
    let mut db = CardDb::new();
    for (name, kind, cmc) in entries {
        db.insert(
            name.to_lowercase(),
            CardProfile {
                name: name.to_string(),
                kind: *kind,
                cmc: *cmc,
                is_basic_land: false,
                is_mono_black_legal: true,
            },
        );
    }
    db
}

#[test]
fn test_draw_from_empty_library_loses_game() {
    let mut player = PlayerState {
        name: "P1".to_string(),
        life: 20,
        library: Vec::new(),
        hand: Vec::new(),
        battlefield: Vec::new(),
        graveyard: Vec::new(),
        lands_in_play: 0,
        mana_pool: 0,
        cards_seen: CardSet::new(),
    };
    let action = draw_card(&mut player);
    assert!(action.contains("lost the game"));
    assert_eq!(player.life, 0);
}

#[test]
fn the_top_of_the_library_is_its_last_card() {
    let mut p = player("P", &["Bottom", "Top"], &["Held"]);
    assert_eq!(draw_card(&mut p), "Drew card: Top");
    assert_eq!(names(&p.library), vec!["Bottom"]);
    assert_eq!(names(&p.hand), vec!["Held", "Top"]);
    assert_eq!(p.cards_seen.sorted(), vec!["Top".to_string()]);
    assert_eq!(p.life, 20);
}

#[test]
fn a_shared_library_is_drawn_from_the_top() {
    let mut p = player("P", &["Own"], &[]);
    let mut shared = cards(&["A", "B"]);
    assert_eq!(draw_card_from_shared(&mut p, &mut shared), "Drew shared card: B");
    assert_eq!(draw_card_from_shared(&mut p, &mut shared), "Drew shared card: A");
    assert_eq!(
        draw_card_from_shared(&mut p, &mut shared),
        "Tried to draw from empty shared library and lost the game."
    );
    assert_eq!(p.life, 0);
    assert_eq!(names(&p.library), vec!["Own"]);
    assert_eq!(names(&p.hand), vec!["B", "A"]);
}

#[test]
fn bridges_stay_with_their_owner() {
    let mut p = player("P", &[], &[]);
    let mut shared = cards(&["Old"]);
    put_in_yard_graveyard(&mut p, DeckCard { name: "BRIDGE from Below".to_string() }, &mut shared);
    put_in_yard_graveyard(&mut p, DeckCard { name: "Swamp".to_string() }, &mut shared);
    assert_eq!(names(&p.graveyard), vec!["BRIDGE from Below"]);
    assert_eq!(names(&shared), vec!["Old", "Swamp"]);
}

#[test]
fn test_discard_down_to_hand_size() {
    let mut card_db = CardDb::new();
    card_db.insert(
        "dark ritual".to_string(),
        CardProfile {
            name: "Dark Ritual".to_string(),
            kind: CardKind::ManaRitual { mana: 3 },
            cmc: 1,
            is_basic_land: false,
            is_mono_black_legal: true,
        },
    );
    card_db.insert(
        "griselbrand".to_string(),
        CardProfile {
            name: "Griselbrand".to_string(),
            kind: CardKind::Creature {
                power: 7,
                toughness: 7,
            },
            cmc: 8,
            is_basic_land: false,
            is_mono_black_legal: true,
        },
    );
    let mut player = PlayerState {
        name: "P1".to_string(),
        life: 20,
        library: Vec::new(),
        hand: vec![
            DeckCard {
                name: "Dark Ritual".to_string(),
            },
            DeckCard {
                name: "Griselbrand".to_string(),
            },
        ],
        battlefield: Vec::new(),
        graveyard: Vec::new(),
        lands_in_play: 0,
        mana_pool: 0,
        cards_seen: CardSet::new(),
    };

    let actions = discard_down_to_hand_size(&mut player, &card_db, 1);
    assert_eq!(player.hand.len(), 1);
    assert_eq!(player.graveyard.len(), 1);
    assert_eq!(player.graveyard[0].name, "Griselbrand");
    assert!(actions[0].contains("Discarded Griselbrand"));
}

#[test]
fn the_last_of_the_dearest_cards_is_discarded() {
    let card_db = db(&[
        ("One", CardKind::OtherSpell, 1),
        ("Two", CardKind::OtherSpell, 2),
        ("Deux", CardKind::OtherSpell, 2),
    ]);
    let p = player("P", &[], &["Two", "Unknown", "Deux", "One"]);
    assert_eq!(choose_discard_index(&p, &card_db), 2);
    assert_eq!(choose_discard_index(&player("P", &[], &["?", "!"]), &card_db), 1);
    assert_eq!(choose_discard_index(&player("P", &[], &[]), &card_db), 0);
}

#[test]
fn discards_are_logged_one_by_one() {
    let card_db = db(&[("One", CardKind::OtherSpell, 1), ("Two", CardKind::OtherSpell, 2)]);
    let mut p = player("P", &[], &["Two", "One", "Unknown"]);
    let actions = discard_down_to_hand_size(&mut p, &card_db, 1);
    assert_eq!(
        actions,
        vec!["Discarded Two to hand size (1).", "Discarded One to hand size (1)."]
    );
    assert_eq!(names(&p.hand), vec!["Unknown"]);
    assert_eq!(names(&p.graveyard), vec!["Two", "One"]);
    assert_eq!(discard_down_to_hand_size(&mut p, &card_db, 1), Vec::<String>::new());
}

#[test]
fn yard_discards_are_shared() {
    let card_db = db(&[("Bridge from Below", CardKind::OtherSpell, 3)]);
    let mut p = player("P", &[], &["Bridge from Below", "Swamp"]);
    let mut shared = Vec::new();
    let actions = discard_down_to_hand_size_yard(&mut p, &card_db, &mut shared, 0);
    assert_eq!(
        actions,
        vec![
            "Discarded Bridge from Below to hand size (0).",
            "Discarded Swamp to hand size (0)."
        ]
    );
    assert_eq!(names(&p.graveyard), vec!["Bridge from Below"]);
    assert_eq!(names(&shared), vec!["Swamp"]);
    assert!(p.hand.is_empty());
}

#[test]
fn untapping_clears_the_pool_and_wakes_creatures() {
    let mut p = player("P", &[], &[]);
    p.mana_pool = 5;
    p.lands_in_play = 3;
    for sick in [true, false] {
        p.battlefield.push(CreaturePermanent {
            card_name: "Bear".to_string(),
            power: 2,
            toughness: 2,
            summoning_sick: sick,
        });
    }
    untap(&mut p);
    assert_eq!(p.mana_pool, 0);
    assert_eq!(p.lands_in_play, 3);
    assert!(p.battlefield.iter().all(|c| !c.summoning_sick && c.power == 2));
}

#[test]
fn the_first_land_is_played() {
    let card_db = db(&[
        ("Swamp", CardKind::Land, 0),
        ("Bog", CardKind::Land, 0),
        ("Shock", CardKind::Burn { damage: 2 }, 1),
    ]);
    let mut p = player("P", &[], &["Shock", "bog", "Swamp"]);
    assert_eq!(
        play_land(&mut p, &card_db),
        Ok(Some("Played land: bog (lands in play: 1).".to_string()))
    );
    assert_eq!(names(&p.hand), vec!["Shock", "Swamp"]);
    assert_eq!(p.cards_seen.sorted(), vec!["bog".to_string()]);
    assert_eq!(
        play_land(&mut p, &card_db),
        Ok(Some("Played land: Swamp (lands in play: 2).".to_string()))
    );
    assert_eq!(play_land(&mut p, &card_db), Ok(None));
    assert_eq!(p.lands_in_play, 2);
}

#[test]
fn the_number_of_lands_is_bounded() {
    let card_db = db(&[("Swamp", CardKind::Land, 0)]);
    let mut p = player("P", &[], &["Swamp"]);
    p.lands_in_play = u32::MAX;
    assert_eq!(play_land(&mut p, &card_db), Err(OutOfRange));
}

#[test]
fn a_set_of_cards_lists_each_once_in_order() {
    let mut set = CardSet::new();
    assert_eq!(set.sorted(), Vec::<String>::new());
    for name in ["b", "a", "é", "B", "ab", "b", "a"] {
        set.insert(name);
    }
    assert_eq!(set.sorted(), vec!["B", "a", "ab", "b", "é"]);
}
