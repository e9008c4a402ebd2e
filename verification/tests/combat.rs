use mtngin::cards::DeckCard;
use mtngin::combat::{
    apply_bridge_triggers, attack_step, attack_step_yard, remove_dead_creatures,
    remove_dead_creatures_yard, trigger_bridge_from_below,
};
use mtngin::players::{CreaturePermanent, OutOfRange, PlayerState};
use mtngin::seen::CardSet;
use std::collections::HashSet;

fn creature(name: &str, power: i32, toughness: i32, sick: bool) -> CreaturePermanent {
    CreaturePermanent {
        card_name: name.to_string(),
        power,
        toughness,
        summoning_sick: sick,
    }
}

fn player(name: &str, battlefield: Vec<CreaturePermanent>) -> PlayerState {
    PlayerState {
        name: name.to_string(),
        life: 20,
        library: Vec::new(),
        hand: Vec::new(),
        battlefield,
        graveyard: Vec::new(),
        lands_in_play: 0,
        mana_pool: 0,
        cards_seen: CardSet::new(),
    }
}

fn cards(names: &[&str]) -> Vec<DeckCard> {
    names.iter().map(|name| DeckCard { name: name.to_string() }).collect()
}

fn names(cards: &[DeckCard]) -> Vec<&str> {
    cards.iter().map(|card| card.name.as_str()).collect()
}

fn field(player: &PlayerState) -> Vec<&str> {
    player.battlefield.iter().map(|c| c.card_name.as_str()).collect()
}

#[test]
fn test_attack_step_reports_unblocked_damage() {
    let mut active = PlayerState {
        name: "Atk".to_string(),
        life: 20,
        library: Vec::new(),
        hand: Vec::new(),
        battlefield: vec![CreaturePermanent {
            card_name: "Bear".to_string(),
            power: 2,
            toughness: 2,
            summoning_sick: false,
        }],
        graveyard: Vec::new(),
        lands_in_play: 0,
        mana_pool: 0,
        cards_seen: CardSet::new(),
    };
    let mut defending = PlayerState {
        name: "Def".to_string(),
        life: 20,
        library: Vec::new(),
        hand: Vec::new(),
        battlefield: Vec::new(),
        graveyard: Vec::new(),
        lands_in_play: 0,
        mana_pool: 0,
        cards_seen: CardSet::new(),
    };
    let actions = attack_step(&mut active, &mut defending).unwrap();
    assert_eq!(defending.life, 18);
    assert!(actions.iter().any(|a| a.contains("unblocked for 2 damage")));
}

#[test]
fn the_strongest_attacker_meets_the_toughest_blocker() {
    let mut a = player(
        "A",
        vec![
            creature("Weak", 1, 1, false),
            creature("Strong", 5, 5, false),
            creature("Middle", 3, 3, false),
            creature("Sick", 9, 9, true),
        ],
    );
    let mut d = player("D", vec![creature("Soft", 1, 1, false), creature("Wall", 5, 6, true)]);
    let actions = attack_step(&mut a, &mut d).unwrap();
    assert_eq!(
        actions,
        vec![
            "Weak attacked unblocked for 1 damage (D life: 19).",
            "Combat trades: attackers lost 1, blockers lost 1.",
        ]
    );
    assert_eq!(field(&a), vec!["Weak", "Middle", "Sick"]);
    assert_eq!(field(&d), vec!["Wall"]);
    assert_eq!(names(&a.graveyard), vec!["Strong"]);
    assert_eq!(names(&d.graveyard), vec!["Soft"]);
    assert_eq!(d.life, 19);
}

#[test]
fn equal_creatures_fight_from_left_to_right() {
    let mut a = player("A", vec![creature("First", 2, 2, false), creature("Second", 2, 2, false)]);
    let mut d = player("D", vec![creature("Guard", 2, 2, false)]);
    let actions = attack_step(&mut a, &mut d).unwrap();
    assert_eq!(
        actions,
        vec![
            "Second attacked unblocked for 2 damage (D life: 18).",
            "Combat trades: attackers lost 1, blockers lost 1.",
        ]
    );
    assert_eq!(field(&a), vec!["Second"]);
    assert!(d.battlefield.is_empty());
}

#[test]
fn nothing_happens_without_an_attacker() {
    let mut a = player("A", vec![creature("Sick", 9, 9, true)]);
    let mut d = player("D", vec![creature("Guard", 2, 2, false)]);
    assert_eq!(attack_step(&mut a, &mut d).unwrap(), Vec::<String>::new());
    assert_eq!(d.life, 20);
    assert_eq!(field(&d), vec!["Guard"]);
}

#[test]
fn a_weak_attacker_heals() {
    let mut a = player("A", vec![creature("Odd", -1, 1, false)]);
    let mut d = player("D", Vec::new());
    assert_eq!(
        attack_step(&mut a, &mut d).unwrap(),
        vec!["Odd attacked unblocked for -1 damage (D life: 21)."]
    );
}

#[test]
fn life_that_leaves_its_range_is_an_error() {
    let mut a = player("A", vec![creature("Bear", 2, 2, false)]);
    let mut d = player("D", Vec::new());
    d.life = i32::MIN + 1;
    assert_eq!(attack_step(&mut a, &mut d), Err(OutOfRange));
    let mut shared = Vec::new();
    assert_eq!(attack_step_yard(&mut a, &mut d, &mut shared), Err(OutOfRange));
}

#[test]
fn the_dead_are_buried_in_order() {
    let mut battlefield = vec![
        creature("A", 1, 1, false),
        creature("B", 1, 1, false),
        creature("C", 1, 1, false),
    ];
    let mut graveyard = cards(&["Old"]);
    let dead: HashSet<usize> = [2, 0, 9].into_iter().collect();
    assert_eq!(remove_dead_creatures(&mut battlefield, &mut graveyard, &dead), 2);
    assert_eq!(names(&graveyard), vec!["Old", "A", "C"]);
    assert_eq!(battlefield.len(), 1);
    assert_eq!(battlefield[0].card_name, "B");
    let all: HashSet<usize> = [0].into_iter().collect();
    assert_eq!(remove_dead_creatures_yard(&mut battlefield, &mut graveyard, &all), 1);
    assert_eq!(names(&graveyard), vec!["Old", "A", "C", "B"]);
    assert!(battlefield.is_empty());
}

#[test]
fn every_bridge_makes_zombies() {
    let graveyard = cards(&["Bridge from Below", "Swamp", "BRIDGE FROM BELOW"]);
    let mut battlefield = vec![creature("Bear", 2, 2, false)];
    assert_eq!(trigger_bridge_from_below(&graveyard, &mut battlefield, 2), Ok(()));
    assert_eq!(battlefield.len(), 5);
    for token in &battlefield[1..] {
        assert_eq!(token.card_name, "Zombie Token");
        assert_eq!((token.power, token.toughness, token.summoning_sick), (2, 2, true));
    }
    assert_eq!(trigger_bridge_from_below(&graveyard, &mut battlefield, 0), Ok(()));
    assert_eq!(battlefield.len(), 5);
}

#[test]
fn too_many_zombies_are_an_error() {
    let graveyard = cards(&["Bridge from Below", "Bridge from Below"]);
    let mut battlefield = Vec::new();
    assert_eq!(
        trigger_bridge_from_below(&graveyard, &mut battlefield, usize::MAX),
        Err(OutOfRange)
    );
}

#[test]
fn both_players_answer_each_death() {
    let mut a = player("A", Vec::new());
    let mut d = player("D", Vec::new());
    a.graveyard = cards(&["Bridge from Below"]);
    d.graveyard = cards(&["Bridge from Below", "Bridge from Below"]);
    apply_bridge_triggers(3, &mut a, &mut d);
    assert_eq!(a.battlefield.len(), 3);
    assert_eq!(d.battlefield.len(), 6);
}

#[test]
fn yard_deaths_are_shared_and_haunted() {
    let mut a = player("A", vec![creature("Bear", 2, 2, false)]);
    let mut d = player("D", vec![creature("Guard", 2, 2, false)]);
    a.graveyard = cards(&["Bridge from Below"]);
    let mut shared = cards(&["Old"]);
    let actions = attack_step_yard(&mut a, &mut d, &mut shared).unwrap();
    assert_eq!(actions, vec!["Combat trades: attackers lost 1, blockers lost 1."]);
    assert_eq!(names(&shared), vec!["Old", "Bear", "Guard"]);
    assert_eq!(field(&a), vec!["Zombie Token", "Zombie Token"]);
    assert!(d.battlefield.is_empty());
    assert_eq!(names(&a.graveyard), vec!["Bridge from Below"]);
}

#[test]
fn yard_attackers_that_get_through_hit() {
    let mut a = player("A", vec![creature("One", 1, 1, false), creature("Two", 2, 1, false)]);
    let mut d = player("D", Vec::new());
    let mut shared = Vec::new();
    assert_eq!(
        attack_step_yard(&mut a, &mut d, &mut shared).unwrap(),
        vec![
            "Two attacked unblocked for 2 damage (D life: 18).",
            "One attacked unblocked for 1 damage (D life: 17).",
        ]
    );
    assert_eq!(d.life, 17);
}
