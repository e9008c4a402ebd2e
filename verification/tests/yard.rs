use mtngin::cards::{CardDb, CardKind, CardProfile, DeckCard};
use mtngin::players::{CreaturePermanent, OutOfRange, PlayerState};
use mtngin::seen::CardSet;
use mtngin::yard::{activate_mana_abilities_yard, cast_priority_spells_yard};

fn cards(names: &[&str]) -> Vec<DeckCard> {
    names.iter().map(|name| DeckCard { name: name.to_string() }).collect()
}

fn names(cards: &[DeckCard]) -> Vec<&str> {
    cards.iter().map(|card| card.name.as_str()).collect()
}

fn player(name: &str, hand: &[&str]) -> PlayerState {
    PlayerState {
        name: name.to_string(),
        life: 20,
        library: Vec::new(),
        hand: cards(hand),
        battlefield: Vec::new(),
        graveyard: Vec::new(),
        lands_in_play: 0,
        mana_pool: 0,
        cards_seen: CardSet::new(),
    }
}

fn db() -> CardDb {
    let mut db = CardDb::new();
    for (name, kind, cmc) in [
        ("Bear", CardKind::Creature { power: 2, toughness: 3 }, 2),
        ("Giant", CardKind::Creature { power: 5, toughness: 5 }, 6),
        ("Titan", CardKind::Creature { power: 5, toughness: 7 }, 8),
        ("Duress", CardKind::OtherSpell, 1),
        ("Bridge from Below", CardKind::Creature { power: 9, toughness: 9 }, 3),
    ] {
        db.insert(
            name.to_lowercase(),
            CardProfile {
                name: name.to_string(),
                kind,
                cmc,
                is_basic_land: false,
                is_mono_black_legal: true,
            },
        );
    }
    db
}

fn pets(count: usize) -> Vec<CreaturePermanent> {
    (0..count)
        .map(|_| CreaturePermanent {
            card_name: "BLOOD Pet".to_string(),
            power: 1,
            toughness: 1,
            summoning_sick: false,
        })
        .collect()
}

#[test]
fn wraiths_are_cycled_while_there_is_life() {
    let mut a = player("A", &["Street Wraith", "Swamp"]);
    let mut d = player("D", &[]);
    a.life = 5;
    let mut library = cards(&["Bottom", "Last", "street wraith"]);
    let mut shared = Vec::new();
    let actions =
        cast_priority_spells_yard(&mut a, &mut d, &db(), &mut library, &mut shared).unwrap();
    assert_eq!(
        actions,
        vec![
            "Cycled Street Wraith by paying 2 life (A life now 3).",
            "Drew shared card: street wraith",
            "Cycled Street Wraith by paying 2 life (A life now 1).",
            "Drew shared card: Last",
        ]
    );
    assert_eq!(a.life, 1);
    assert_eq!(names(&a.hand), vec!["Swamp", "Last"]);
    assert_eq!(names(&library), vec!["Bottom"]);
    assert_eq!(names(&shared), vec!["Street Wraith", "street wraith"]);
}

#[test]
fn no_wraith_is_cycled_with_two_life() {
    let mut a = player("A", &["Street Wraith"]);
    let mut d = player("D", &[]);
    a.life = 2;
    let mut library = cards(&["Top"]);
    let mut shared = Vec::new();
    let actions =
        cast_priority_spells_yard(&mut a, &mut d, &db(), &mut library, &mut shared).unwrap();
    assert!(actions.is_empty());
    assert_eq!(names(&a.hand), vec!["Street Wraith"]);
}

#[test]
fn cycling_from_an_empty_library_loses() {
    let mut a = player("A", &["Street Wraith", "Street Wraith"]);
    let mut d = player("D", &[]);
    let mut library = Vec::new();
    let mut shared = Vec::new();
    let actions =
        cast_priority_spells_yard(&mut a, &mut d, &db(), &mut library, &mut shared).unwrap();
    assert_eq!(
        actions,
        vec![
            "Cycled Street Wraith by paying 2 life (A life now 18).",
            "Tried to draw from empty shared library and lost the game.",
        ]
    );
    assert_eq!(a.life, 0);
    assert_eq!(a.hand.len(), 1);
}

#[test]
fn reanimate_takes_the_last_of_the_strongest() {
    let mut a = player("A", &["Swamp", "REANIMATE", "Reanimate"]);
    let mut d = player("D", &[]);
    d.graveyard = cards(&["Giant", "Duress", "titan", "Bear", "Unknown"]);
    let mut library = Vec::new();
    let mut shared = Vec::new();
    let actions =
        cast_priority_spells_yard(&mut a, &mut d, &db(), &mut library, &mut shared).unwrap();
    assert_eq!(actions, vec!["Cast Reanimate targeting Titan (lost 8 life, 12 life now)."]);
    assert_eq!(a.life, 12);
    assert_eq!(names(&a.hand), vec!["Swamp", "Reanimate"]);
    assert_eq!(a.battlefield.len(), 1);
    assert_eq!(a.battlefield[0].card_name, "Titan");
    assert_eq!((a.battlefield[0].power, a.battlefield[0].toughness), (5, 7));
    assert!(a.battlefield[0].summoning_sick);
    assert_eq!(names(&d.graveyard), vec!["Giant", "Duress", "Bear", "Unknown"]);
    assert_eq!(names(&shared), vec!["Reanimate", "titan"]);
}

#[test]
fn a_reanimated_bridge_returns_to_its_owner() {
    let mut a = player("A", &["Reanimate"]);
    let mut d = player("D", &[]);
    d.graveyard = cards(&["Bridge from Below"]);
    let mut library = Vec::new();
    let mut shared = Vec::new();
    cast_priority_spells_yard(&mut a, &mut d, &db(), &mut library, &mut shared).unwrap();
    assert_eq!(names(&d.graveyard), vec!["Bridge from Below"]);
    assert_eq!(names(&shared), vec!["Reanimate"]);
    assert_eq!(a.life, 17);
}

#[test]
fn reanimate_needs_a_creature_card() {
    let mut a = player("A", &["Reanimate"]);
    let mut d = player("D", &[]);
    d.graveyard = cards(&["Duress", "Unknown"]);
    let mut library = Vec::new();
    let mut shared = Vec::new();
    let actions =
        cast_priority_spells_yard(&mut a, &mut d, &db(), &mut library, &mut shared).unwrap();
    assert!(actions.is_empty());
    assert_eq!(a.hand.len(), 1);
}

#[test]
fn reanimate_cannot_leave_the_range_of_life() {
    let mut a = player("A", &["Reanimate"]);
    let mut d = player("D", &[]);
    a.life = i32::MIN;
    d.graveyard = cards(&["Bear"]);
    let mut library = Vec::new();
    let mut shared = Vec::new();
    assert_eq!(
        cast_priority_spells_yard(&mut a, &mut d, &db(), &mut library, &mut shared),
        Err(OutOfRange)
    );
}

#[test]
fn pets_are_sacrificed_until_the_hand_is_paid_for() {
    let mut a = player("A", &["Bear", "Unknown"]);
    a.battlefield = pets(3);
    let mut shared = Vec::new();
    let actions = activate_mana_abilities_yard(&mut a, &db(), &mut shared).unwrap();
    assert_eq!(
        actions,
        vec![
            "Activated Blood Pet: sacrificed for {B} (pool 1).",
            "Activated Blood Pet: sacrificed for {B} (pool 2).",
        ]
    );
    assert_eq!(a.battlefield.len(), 1);
    assert_eq!(a.mana_pool, 2);
    assert_eq!(names(&shared), vec!["BLOOD Pet", "BLOOD Pet"]);
}

#[test]
fn pets_stay_while_nothing_needs_mana() {
    let mut a = player("A", &["Bear", "Unknown"]);
    a.battlefield = pets(1);
    a.lands_in_play = 2;
    let mut shared = Vec::new();
    assert!(activate_mana_abilities_yard(&mut a, &db(), &mut shared).unwrap().is_empty());
    assert_eq!(a.battlefield.len(), 1);
    a.hand = cards(&["Giant"]);
    assert_eq!(activate_mana_abilities_yard(&mut a, &db(), &mut shared).unwrap().len(), 1);
    assert!(a.battlefield.is_empty());
}

#[test]
fn mana_that_leaves_its_range_is_an_error() {
    let mut a = player("A", &["Bear"]);
    a.battlefield = pets(1);
    a.lands_in_play = u32::MAX;
    a.mana_pool = 1;
    let mut shared = Vec::new();
    assert_eq!(activate_mana_abilities_yard(&mut a, &db(), &mut shared), Err(OutOfRange));
    a.hand = cards(&["Unknown"]);
    assert_eq!(activate_mana_abilities_yard(&mut a, &db(), &mut shared), Ok(Vec::new()));
}
