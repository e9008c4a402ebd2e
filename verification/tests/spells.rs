use mtngin::cards::{CardDb, CardKind, CardProfile, DeckCard};
use mtngin::players::{OutOfRange, PlayerState};
use mtngin::seen::CardSet;
use mtngin::spells::{
    cast_spells, cast_spells_yard, choose_best_yard_spell, effective_yard_cost,
    maybe_response_spell, playable_cards, resolve_spell, resolve_spell_yard, resolve_stack,
    StackItem,
};

fn cards(names: &[&str]) -> Vec<DeckCard> {
    names.iter().map(|name| DeckCard { name: name.to_string() }).collect()
}

fn names(cards: &[DeckCard]) -> Vec<&str> {
    cards.iter().map(|card| card.name.as_str()).collect()
}

fn player(name: &str, hand: &[&str], lands: u32) -> PlayerState {
    PlayerState {
        name: name.to_string(),
        life: 20,
        library: Vec::new(),
        hand: cards(hand),
        battlefield: Vec::new(),
        graveyard: Vec::new(),
        lands_in_play: lands,
        mana_pool: 0,
        cards_seen: CardSet::new(),
    }
}

fn profile(name: &str, kind: CardKind, cmc: u32) -> CardProfile {
    CardProfile {
        name: name.to_string(),
        kind,
        cmc,
        is_basic_land: false,
        is_mono_black_legal: true,
    }
}

fn db() -> CardDb {
    let mut db = CardDb::new();
    for (name, kind, cmc) in [
        ("Shock", CardKind::Burn { damage: 2 }, 1),
        ("Fireblast", CardKind::Burn { damage: 4 }, 6),
        ("Bear", CardKind::Creature { power: 2, toughness: 2 }, 2),
        ("Ogre", CardKind::Creature { power: 4, toughness: -1 }, 4),
        ("Dark Ritual", CardKind::ManaRitual { mana: 3 }, 1),
        ("Duress", CardKind::OtherSpell, 1),
        ("Reanimate", CardKind::OtherSpell, 1),
        ("Contagion", CardKind::OtherSpell, 5),
        ("Swamp", CardKind::Land, 0),
    ] {
        db.insert(name.to_lowercase(), profile(name, kind, cmc));
    }
    db
}

fn card(name: &str) -> DeckCard {
    DeckCard { name: name.to_string() }
}

#[test]
fn a_creature_comes_into_play() {
    let (mut a, mut d) = (player("A", &[], 0), player("D", &[], 0));
    let ogre = profile("Ogre", CardKind::Creature { power: 4, toughness: -1 }, 4);
    assert_eq!(
        resolve_spell(&mut a, &mut d, card("ogre"), &ogre),
        Ok("Cast creature Ogre (4/-1)".to_string())
    );
    assert_eq!(a.battlefield.len(), 1);
    assert_eq!(a.battlefield[0].card_name, "Ogre");
    assert_eq!((a.battlefield[0].power, a.battlefield[0].toughness), (4, -1));
    assert!(a.battlefield[0].summoning_sick);
    assert!(a.graveyard.is_empty());
}

#[test]
fn burn_hits_the_defending_player() {
    let (mut a, mut d) = (player("A", &[], 0), player("D", &[], 0));
    d.life = 1;
    let shock = profile("Shock", CardKind::Burn { damage: 2 }, 1);
    assert_eq!(
        resolve_spell(&mut a, &mut d, card("shock"), &shock),
        Ok("Cast burn Shock for 2 damage to D (life now -1).".to_string())
    );
    assert_eq!(d.life, -1);
    assert_eq!(names(&a.graveyard), vec!["shock"]);
}

#[test]
fn rituals_fill_the_pool_and_other_spells_do_nothing() {
    let (mut a, mut d) = (player("A", &[], 0), player("D", &[], 0));
    a.mana_pool = 1;
    let ritual = profile("Dark Ritual", CardKind::ManaRitual { mana: 3 }, 1);
    assert_eq!(
        resolve_spell(&mut a, &mut d, card("Dark Ritual"), &ritual),
        Ok("Resolved ritual Dark Ritual and added 3 mana (pool 4).".to_string())
    );
    let duress = profile("Duress", CardKind::OtherSpell, 1);
    assert_eq!(
        resolve_spell(&mut a, &mut d, card("Duress"), &duress),
        Ok("Cast spell Duress.".to_string())
    );
    assert_eq!(a.mana_pool, 4);
    assert_eq!(names(&a.graveyard), vec!["Dark Ritual", "Duress"]);
    assert_eq!(d.life, 20);
}

#[test]
fn arithmetic_out_of_range_is_an_error() {
    let (mut a, mut d) = (player("A", &[], 0), player("D", &[], 0));
    d.life = i32::MIN + 1;
    let shock = profile("Shock", CardKind::Burn { damage: 2 }, 1);
    assert_eq!(resolve_spell(&mut a, &mut d, card("Shock"), &shock), Err(OutOfRange));
    a.mana_pool = u32::MAX;
    let ritual = profile("Dark Ritual", CardKind::ManaRitual { mana: 1 }, 1);
    let mut shared = Vec::new();
    assert_eq!(
        resolve_spell_yard(&mut a, &mut d, card("Dark Ritual"), &ritual, &mut shared),
        Err(OutOfRange)
    );
    a.lands_in_play = 1;
    assert_eq!(cast_spells(&mut a, &mut d, &db()), Err(OutOfRange));
    assert!(matches!(maybe_response_spell(&mut a, &d, &db(), false), Err(OutOfRange)));
}

#[test]
fn yard_spells_are_laid_in_the_shared_graveyard() {
    let (mut a, mut d) = (player("A", &[], 0), player("D", &[], 0));
    let mut shared = Vec::new();
    let shock = profile("Shock", CardKind::Burn { damage: 2 }, 1);
    let ritual = profile("Dark Ritual", CardKind::ManaRitual { mana: 3 }, 1);
    let bridge = profile("Bridge from Below", CardKind::OtherSpell, 3);
    let bear = profile("Bear", CardKind::Creature { power: 2, toughness: 2 }, 2);
    assert_eq!(
        resolve_spell_yard(&mut a, &mut d, card("Shock"), &shock, &mut shared).unwrap(),
        "Cast burn Shock for 2 damage to D (life now 18)."
    );
    assert_eq!(
        resolve_spell_yard(&mut a, &mut d, card("Dark Ritual"), &ritual, &mut shared).unwrap(),
        "Resolved ritual Dark Ritual and added 3 mana (pool 3)."
    );
    assert_eq!(
        resolve_spell_yard(&mut a, &mut d, card("Bridge from Below"), &bridge, &mut shared)
            .unwrap(),
        "Cast spell Bridge from Below."
    );
    assert_eq!(
        resolve_spell_yard(&mut a, &mut d, card("Bear"), &bear, &mut shared).unwrap(),
        "Cast creature Bear (2/2)"
    );
    assert_eq!(names(&shared), vec!["Shock", "Dark Ritual"]);
    assert_eq!(names(&a.graveyard), vec!["Bridge from Below"]);
}

#[test]
fn two_cards_are_free_in_the_yard() {
    assert_eq!(effective_yard_cost("STREET Wraith", 5), 0);
    assert_eq!(effective_yard_cost("contagion", 5), 0);
    assert_eq!(effective_yard_cost("Dark Ritual", 1), 1);
}

#[test]
fn only_a_lethal_spell_that_can_be_paid_for_answers() {
    let db = db();
    let opponent = player("O", &[], 0);
    let mut r = player("R", &["Bear", "shock", "Fireblast"], 1);
    assert!(maybe_response_spell(&mut r, &opponent, &db, false).unwrap().is_none());
    assert_eq!(r.hand.len(), 3);

    let mut weak = player("O", &[], 0);
    weak.life = 2;
    let mut r = player("R", &["Fireblast", "Bear", "shock", "Shock"], 3);
    let answer = maybe_response_spell(&mut r, &weak, &db, false).unwrap().unwrap();
    assert_eq!(answer.card.name, "shock");
    assert_eq!(answer.profile.name, "Shock");
    assert_eq!(names(&r.hand), vec!["Fireblast", "Bear", "Shock"]);
    assert_eq!(r.mana_pool, 2);
    assert_eq!(r.lands_in_play, 3);
}

#[test]
fn the_stack_resolves_from_the_top_and_can_be_answered() {
    let db = db();
    let mut a = player("A", &[], 0);
    a.life = 2;
    let mut d = player("D", &["Shock"], 1);
    let mut shared = Vec::new();
    let mut stack = vec![
        StackItem {
            card: card("Duress"),
            profile: profile("Duress", CardKind::OtherSpell, 1),
        },
        StackItem {
            card: card("Bear"),
            profile: profile("Bear", CardKind::Creature { power: 2, toughness: 2 }, 2),
        },
    ];
    let actions = resolve_stack(&mut stack, &mut a, &mut d, &db, false, &mut shared).unwrap();
    assert_eq!(
        actions,
        vec![
            "D responds with Shock.",
            "Cast burn Shock for 2 damage to D (life now 18).",
            "Cast creature Bear (2/2)",
            "Cast spell Duress.",
        ]
    );
    assert!(stack.is_empty());
    assert_eq!(names(&a.graveyard), vec!["Shock", "Duress"]);
    assert!(d.hand.is_empty());
}

#[test]
fn playable_cards_are_ranked_by_mana_value() {
    let hand = cards(&["Shock", "Bear", "Unknown", "Duress", "Ogre", "Swamp"]);
    assert_eq!(playable_cards(&hand, &db(), 3), vec![(1, 2), (0, 1), (3, 1), (5, 0)]);
    assert_eq!(playable_cards(&hand, &db(), 0), vec![(5, 0)]);
}

#[test]
fn the_costliest_spell_is_cast_first() {
    let mut a = player("A", &["Shock", "Bear", "Duress", "Ogre"], 3);
    let mut d = player("D", &[], 0);
    let actions = cast_spells(&mut a, &mut d, &db()).unwrap();
    assert_eq!(
        actions,
        vec![
            "Put Bear on the stack.",
            "Cast creature Bear (2/2)",
            "Put Shock on the stack.",
            "Cast burn Shock for 2 damage to D (life now 18).",
        ]
    );
    assert_eq!(names(&a.hand), vec!["Duress", "Ogre"]);
    assert_eq!(a.mana_pool, 0);
    assert_eq!(a.cards_seen.sorted(), vec!["Bear", "Shock"]);
}

#[test]
fn a_lethal_spell_is_cast_first_of_all() {
    let mut a = player("A", &["Bear", "Shock"], 2);
    let mut d = player("D", &[], 0);
    d.life = 2;
    let actions = cast_spells(&mut a, &mut d, &db()).unwrap();
    assert_eq!(
        actions,
        vec!["Put Shock on the stack.", "Cast burn Shock for 2 damage to D (life now 0)."]
    );
    assert_eq!(names(&a.hand), vec!["Bear"]);
}

#[test]
fn what_lands_do_not_cover_stays_in_the_pool() {
    let mut a = player("A", &["Duress"], 1);
    a.mana_pool = 3;
    let mut d = player("D", &[], 0);
    cast_spells(&mut a, &mut d, &db()).unwrap();
    assert_eq!(a.mana_pool, 2);
    let mut idle = player("A", &["Ogre", "Unknown"], 2);
    assert_eq!(cast_spells(&mut idle, &mut d, &db()).unwrap(), Vec::<String>::new());
    assert_eq!(idle.hand.len(), 2);
}

#[test]
fn a_plain_ritual_does_not_pay_for_the_next_spell() {
    let mut a = player("A", &["Dark Ritual", "Ogre"], 1);
    let mut d = player("D", &[], 0);
    let actions = cast_spells(&mut a, &mut d, &db()).unwrap();
    assert_eq!(
        actions,
        vec![
            "Put Dark Ritual on the stack.",
            "Resolved ritual Dark Ritual and added 3 mana (pool 3).",
        ]
    );
    assert_eq!(a.mana_pool, 0);
    assert_eq!(names(&a.hand), vec!["Ogre"]);
}

#[test]
fn a_yard_ritual_pays_for_the_next_spell() {
    let mut a = player("A", &["Dark Ritual", "Bear"], 1);
    let mut d = player("D", &[], 0);
    let mut shared = Vec::new();
    let actions = cast_spells_yard(&mut a, &mut d, &db(), &mut shared).unwrap();
    assert_eq!(
        actions,
        vec![
            "Put Dark Ritual on the stack.",
            "Resolved ritual Dark Ritual and added 3 mana (pool 3).",
            "Put Bear on the stack.",
            "Cast creature Bear (2/2)",
        ]
    );
    assert_eq!(a.mana_pool, 0);
    assert_eq!(names(&shared), vec!["Dark Ritual"]);
}

#[test]
fn a_free_yard_card_needs_its_mana_but_does_not_spend_it() {
    let mut a = player("A", &["Contagion", "Contagion"], 5);
    let mut d = player("D", &[], 0);
    let mut shared = Vec::new();
    let actions = cast_spells_yard(&mut a, &mut d, &db(), &mut shared).unwrap();
    assert_eq!(actions.len(), 4);
    assert_eq!(names(&shared), vec!["Contagion", "Contagion"]);
    let mut poor = player("A", &["Contagion"], 4);
    assert!(cast_spells_yard(&mut poor, &mut d, &db(), &mut shared).unwrap().is_empty());
}

#[test]
fn the_yard_prefers_lethal_burn_then_reanimate() {
    let db = db();
    let a = player("A", &["Bear", "reanimate", "Shock"], 2);
    let mut d = player("D", &[], 0);
    let playable = playable_cards(&a.hand, &db, 2);
    assert_eq!(playable, vec![(0, 2), (1, 1), (2, 1)]);
    assert_eq!(choose_best_yard_spell(&a, &d, &db, &playable), 0);
    d.graveyard = cards(&["Bridge from Below"]);
    assert_eq!(choose_best_yard_spell(&a, &d, &db, &playable), 1);
    d.life = 2;
    assert_eq!(choose_best_yard_spell(&a, &d, &db, &playable), 2);
}
