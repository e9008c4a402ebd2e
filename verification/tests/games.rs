use mtngin::cards::{CardDb, CardKind, CardProfile, DeckCard};
use mtngin::config::{PlayerConfig, RunConfig};
use mtngin::decks::DeckError;
use mtngin::games::{
    decide_winner, play_game, play_game_yard, seat_player, simulate_game, simulate_game_yard,
    GameResult, STARTING_HAND_SIZE,
};
use mtngin::players::{CreaturePermanent, OutOfRange, PlayerState};
use mtngin::report::{record_game, run_checked, run_games, RunError, SimulationReport};
use mtngin::seen::CardSet;
use mtngin::turns::{take_turn, take_turn_yard, PlayerTurnLog, TurnPhase, MAX_HAND_SIZE};
use rand::rngs::StdRng;
use rand::seq::SliceRandom;
use rand::SeedableRng;

fn cards(names: &[&str]) -> Vec<DeckCard> {
    names.iter().map(|name| DeckCard { name: name.to_string() }).collect()
}

fn names(cards: &[DeckCard]) -> Vec<&str> {
    cards.iter().map(|card| card.name.as_str()).collect()
}

fn player(name: &str, library: &[&str], hand: &[&str]) -> PlayerState {
    PlayerState {
        name: name.to_string(),
        life: 20,
        library: cards(library),
        hand: cards(hand),
        battlefield: Vec::new(),
        graveyard: Vec::new(),
        lands_in_play: 0,
        mana_pool: 0,
        cards_seen: CardSet::new(),
    }
}

fn db() -> CardDb {
    let mut db = CardDb::new();
    for (name, kind, cmc) in [
        ("Mountain", CardKind::Land, 0),
        ("Swamp", CardKind::Land, 0),
        ("Shock", CardKind::Burn { damage: 2 }, 1),
        ("Bear", CardKind::Creature { power: 2, toughness: 2 }, 2),
        ("Blood Pet", CardKind::Creature { power: 1, toughness: 1 }, 1),
        ("Bridge from Below", CardKind::OtherSpell, 3),
    ] {
        db.insert(
            name.to_lowercase(),
            CardProfile {
                name: name.to_string(),
                kind,
                cmc,
                is_basic_land: false,
                is_mono_black_legal: true,
            },
        );
    }
    db
}

fn config(format: &str, iterations: usize, seed: u64) -> RunConfig {
    RunConfig {
        format: format.to_string(),
        iterations,
        seed: Some(seed),
        max_turns: Some(12),
        db_path: "db.json".to_string(),
        player1: PlayerConfig {
            name: "One".to_string(),
            deck_path: "a".to_string(),
            starting_life: None,
        },
        player2: PlayerConfig {
            name: "Two".to_string(),
            deck_path: "a".to_string(),
            starting_life: Some(15),
        },
        output_path: None,
    }
}

/// A deck in which no two cards are the same.
fn distinct_deck() -> Vec<DeckCard> {
    (0..60).map(|i| DeckCard { name: format!("Card {:02}", i) }).collect()
}

fn red_deck() -> Vec<DeckCard> {
    let mut deck = Vec::new();
    for (count, name) in [(24, "Mountain"), (20, "Bear"), (16, "Shock")] {
        for _ in 0..count {
            deck.push(DeckCard { name: name.to_string() });
        }
    }
    deck
}

fn yard_deck() -> Vec<DeckCard> {
    let mut deck = Vec::new();
    for (count, name) in [(20, "Swamp"), (30, "Blood Pet"), (10, "Bridge from Below")] {
        for _ in 0..count {
            deck.push(DeckCard { name: name.to_string() });
        }
    }
    deck
}

fn game(number: usize, winner: &str, turns: usize, lives: (i32, i32)) -> GameResult {
    GameResult {
        game_number: number,
        winner: winner.to_string(),
        turns,
        player1_life: lives.0,
        player2_life: lives.1,
        player1_cards_seen: Vec::new(),
        player2_cards_seen: Vec::new(),
        turn_logs: Vec::new(),
    }
}

fn turn_text(log: &PlayerTurnLog) -> String {
    format!(
        "{} {}->{} {}->{} {}->{} {:?}",
        log.player_name,
        log.life_before,
        log.life_after,
        log.hand_before,
        log.hand_after,
        log.battlefield_before,
        log.battlefield_after,
        log.actions
    )
}

fn game_text(game: &GameResult) -> String {
    let mut text = format!(
        "{} {} {} {} {} {:?} {:?}",
        game.game_number,
        game.winner,
        game.turns,
        game.player1_life,
        game.player2_life,
        game.player1_cards_seen,
        game.player2_cards_seen
    );
    for round in &game.turn_logs {
        text.push_str(&format!("\n{} {}", round.turn, turn_text(&round.player1)));
        if let Some(log) = &round.player2 {
            text.push_str(&format!(" | {}", turn_text(log)));
        }
    }
    text
}

fn report_text(report: &SimulationReport) -> String {
    let games: Vec<String> = report.games.iter().map(game_text).collect();
    format!(
        "{} {} {} {} {} {} {} {} {} {} {:?} {}",
        report.format,
        report.iterations,
        report.player1_name,
        report.player2_name,
        report.player1_wins,
        report.player2_wins,
        report.draws,
        report.player1_life_total,
        report.player2_life_total,
        report.turns_total,
        report.ending_turns,
        games.join("\n")
    )
}

#[test]
fn phases_have_names() {
    let labels: Vec<&str> = [
        TurnPhase::Untap,
        TurnPhase::Draw,
        TurnPhase::Main1,
        TurnPhase::Combat,
        TurnPhase::Main2,
        TurnPhase::End,
    ]
    .into_iter()
    .map(|phase| phase.label())
    .collect();
    assert_eq!(
        labels,
        vec!["Untap", "Draw", "Main Phase 1", "Combat", "Main Phase 2", "End Step"]
    );
}

#[test]
fn a_turn_goes_through_its_phases() {
    let mut a = player("A", &["Bear", "Mountain"], &["Shock"]);
    a.battlefield.push(CreaturePermanent {
        card_name: "Cub".to_string(),
        power: 1,
        toughness: 1,
        summoning_sick: true,
    });
    a.mana_pool = 9;
    let mut d = player("D", &[], &[]);
    let log = take_turn(&mut a, &mut d, &db()).unwrap();
    assert_eq!(
        log.actions,
        vec![
            "== Untap ==",
            "Untapped permanents and cleared summoning sickness.",
            "== Draw ==",
            "Drew card: Mountain",
            "== Main Phase 1 ==",
            "Played land: Mountain (lands in play: 1).",
            "Put Shock on the stack.",
            "Cast burn Shock for 2 damage to D (life now 18).",
            "== Combat ==",
            "Cub attacked unblocked for 1 damage (D life: 17).",
            "== Main Phase 2 ==",
            "== End Step ==",
        ]
    );
    assert_eq!(log.player_name, "A");
    assert_eq!((log.life_before, log.life_after), (20, 20));
    assert_eq!((log.hand_before, log.hand_after), (1, 0));
    assert_eq!((log.battlefield_before, log.battlefield_after), (1, 1));
    assert_eq!(a.mana_pool, 0);
    assert_eq!(d.life, 17);
}

#[test]
fn a_turn_ends_within_the_hand_size() {
    let hand = ["x"; 9];
    let mut a = player("A", &["y"], &hand);
    let mut d = player("D", &[], &[]);
    let log = take_turn(&mut a, &mut d, &db()).unwrap();
    assert_eq!(a.hand.len(), MAX_HAND_SIZE);
    assert_eq!(log.hand_after, 7);
    assert_eq!(
        log.actions[log.actions.len() - 3..].to_vec(),
        vec![
            "Discarded y to hand size (7).",
            "Discarded x to hand size (7).",
            "Discarded x to hand size (7).",
        ]
    );
    assert_eq!(names(&a.graveyard), vec!["y", "x", "x"]);
}

#[test]
fn a_turn_without_a_card_to_draw_is_over() {
    let mut a = player("A", &[], &["Mountain", "Shock"]);
    let mut d = player("D", &["x"], &[]);
    let log = take_turn(&mut a, &mut d, &db()).unwrap();
    assert_eq!(
        log.actions,
        vec![
            "== Untap ==",
            "Untapped permanents and cleared summoning sickness.",
            "== Draw ==",
            "Tried to draw from empty library and lost the game.",
        ]
    );
    assert_eq!((log.life_before, log.life_after), (20, 0));
    assert_eq!(a.hand.len(), 2);
}

#[test]
fn a_plain_turn_keeps_every_card() {
    let count = |p: &PlayerState| {
        p.library.len() + p.hand.len() + p.battlefield.len() + p.graveyard.len()
            + p.lands_in_play as usize
    };
    let mut a = player("A", &["Bear", "Mountain", "Shock", "Bear"], &["Mountain", "Shock", "Bear"]);
    let mut d = player("D", &["Bear", "Bear", "Mountain"], &["Shock", "Bear"]);
    let before = count(&a) + count(&d);
    for _ in 0..3 {
        take_turn(&mut a, &mut d, &db()).unwrap();
        assert_eq!(count(&a) + count(&d), before);
        take_turn(&mut d, &mut a, &db()).unwrap();
        assert_eq!(count(&a) + count(&d), before);
    }
}

#[test]
fn a_yard_turn_starts_with_sacrifices() {
    let mut a = player("A", &[], &["Bear"]);
    a.lands_in_play = 1;
    a.battlefield.push(CreaturePermanent {
        card_name: "Blood Pet".to_string(),
        power: 1,
        toughness: 1,
        summoning_sick: true,
    });
    let mut d = player("D", &[], &[]);
    let mut library = cards(&["Bottom", "Nothing"]);
    let mut graveyard = Vec::new();
    let log = take_turn_yard(&mut a, &mut d, &db(), &mut library, &mut graveyard).unwrap();
    assert_eq!(
        log.actions,
        vec![
            "== Untap ==",
            "Untapped permanents and cleared summoning sickness.",
            "== Draw ==",
            "Drew shared card: Nothing",
            "== Main Phase 1 ==",
            "Activated Blood Pet: sacrificed for {B} (pool 1).",
            "Put Bear on the stack.",
            "Cast creature Bear (2/2)",
            "== Combat ==",
            "== Main Phase 2 ==",
            "== End Step ==",
        ]
    );
    assert_eq!(names(&graveyard), vec!["Blood Pet"]);
    assert_eq!(names(&library), vec!["Bottom"]);
    assert_eq!(names(&a.hand), vec!["Nothing"]);
}

#[test]
fn a_turn_out_of_range_is_an_error() {
    let mut a = player("A", &["x"], &["Mountain"]);
    a.lands_in_play = u32::MAX;
    let mut d = player("D", &[], &[]);
    assert!(matches!(take_turn(&mut a, &mut d, &db()), Err(OutOfRange)));
    let (mut library, mut graveyard) = (cards(&["x"]), Vec::new());
    assert!(matches!(
        take_turn_yard(&mut a, &mut d, &db(), &mut library, &mut graveyard),
        Err(OutOfRange)
    ));
}

#[test]
fn the_winner_has_more_life() {
    for (lives, name) in [
        ((0, 0), "Draw"),
        ((-3, 0), "Draw"),
        ((1, 0), "A"),
        ((0, 1), "B"),
        ((5, 4), "A"),
        ((4, 5), "B"),
        ((7, 7), "Draw"),
    ] {
        let mut a = player("A", &[], &[]);
        let mut b = player("B", &[], &[]);
        a.life = lives.0;
        b.life = lives.1;
        assert_eq!(decide_winner(&a, &b), name);
        assert_eq!(decide_winner(&b, &a), name);
    }
}

#[test]
fn players_are_seated_with_their_life() {
    let cfg = config("modern", 1, 1);
    let p = seat_player(&cfg.player2, cards(&["x"]), 1);
    assert_eq!((p.name.as_str(), p.life, p.lands_in_play, p.mana_pool), ("Two", 15, 1, 0));
    assert_eq!(names(&p.library), vec!["x"]);
    assert!(p.hand.is_empty() && p.battlefield.is_empty() && p.graveyard.is_empty());
    assert!(p.cards_seen.sorted().is_empty());
}

#[test]
fn a_game_is_decided_by_an_empty_library() {
    let eight = ["a", "b", "c", "d", "e", "f", "g", "h"];
    let nine = ["a", "b", "c", "d", "e", "f", "g", "h", "i"];
    let game =
        play_game(4, player("A", &eight, &[]), player("B", &nine, &[]), &CardDb::new(), 30).unwrap();
    assert_eq!(game.game_number, 4);
    assert_eq!(game.winner, "B");
    assert_eq!(game.turns, 2);
    assert_eq!((game.player1_life, game.player2_life), (0, 20));
    assert_eq!(game.player1_cards_seen, eight.to_vec());
    assert_eq!(game.player2_cards_seen, nine.to_vec());
    assert_eq!(game.turn_logs.len(), 2);
    assert_eq!(game.turn_logs[0].turn, 1);
    assert_eq!(game.turn_logs[1].turn, 2);
    assert!(game.turn_logs[1].player2.is_some());
}

#[test]
fn a_game_ends_after_a_killing_turn() {
    let mut a = player("A", &["x"; 10], &[]);
    a.battlefield.push(CreaturePermanent {
        card_name: "Ogre".to_string(),
        power: 30,
        toughness: 1,
        summoning_sick: false,
    });
    let b = player("B", &["x"; 10], &[]);
    let game = play_game(1, a, b, &CardDb::new(), 30).unwrap();
    assert_eq!(game.winner, "A");
    assert_eq!(game.turns, 1);
    assert_eq!(game.player2_life, -10);
    assert_eq!(game.turn_logs.len(), 1);
    assert!(game.turn_logs[0].player2.is_none());
}

#[test]
fn a_game_ends_at_its_limit() {
    let library = ["x"; 20];
    let game = play_game(1, player("A", &library, &[]), player("B", &library, &[]), &db(), 3)
        .unwrap();
    assert_eq!(game.winner, "Draw");
    assert_eq!(game.turns, 3);
    assert_eq!(game.turn_logs.len(), 3);
    let none = play_game(1, player("A", &library, &[]), player("B", &library, &[]), &db(), 0)
        .unwrap();
    assert_eq!(none.turns, 0);
    assert!(none.turn_logs.is_empty());
    assert_eq!(none.player1_cards_seen, vec!["x"]);
}

#[test]
fn a_shared_library_is_dealt_in_turn() {
    let library: Vec<DeckCard> =
        (0..14).rev().map(|i| DeckCard { name: format!("{:02}", i) }).collect();
    let game = play_game_yard(1, player("A", &[], &[]), player("B", &[], &[]), library, &db(), 0)
        .unwrap();
    assert_eq!(game.player1_cards_seen, vec!["00", "02", "04", "06", "08", "10", "12"]);
    assert_eq!(game.player2_cards_seen, vec!["01", "03", "05", "07", "09", "11", "13"]);
    assert_eq!(game.player1_cards_seen.len(), STARTING_HAND_SIZE);
}

#[test]
fn a_shared_library_runs_out_for_both() {
    let library = cards(&["x"; 16]);
    let game = play_game_yard(1, player("A", &[], &[]), player("B", &[], &[]), library, &db(), 9)
        .unwrap();
    assert_eq!(game.turns, 2);
    assert_eq!(game.winner, "Draw");
    let texts = &game.turn_logs[1].player1.actions;
    assert_eq!(
        texts.last().unwrap(),
        "Tried to draw from empty shared library and lost the game."
    );
}

#[test]
fn shuffling_moves_cards_and_keeps_them() {
    let cfg = config("modern", 1, 1);
    let deck = distinct_deck();
    let mut rng = StdRng::seed_from_u64(1);
    let game =
        simulate_game(1, &cfg, &deck, &deck, &CardDb::new(), 53, &mut rng).unwrap();
    let all: Vec<String> = deck.iter().map(|card| card.name.clone()).collect();
    assert_eq!(game.player1_cards_seen, all);
    assert_eq!(game.player2_cards_seen, all);
    assert_eq!((game.player1_life, game.player2_life), (20, 15));
    let drawn = |log: &PlayerTurnLog| log.actions[3].clone();
    let first: Vec<String> = game.turn_logs.iter().map(|round| drawn(&round.player1)).collect();
    let second: Vec<String> =
        game.turn_logs.iter().map(|round| drawn(round.player2.as_ref().unwrap())).collect();
    let unshuffled: Vec<String> =
        deck.iter().rev().skip(7).map(|card| format!("Drew card: {}", card.name)).collect();
    assert_eq!(first.len(), unshuffled.len());
    assert_ne!(first, unshuffled);
    assert_ne!(second, unshuffled);
    assert_ne!(first, second);
}

#[test]
fn the_first_deck_is_shuffled_first() {
    let deck = distinct_deck();
    let mut rng = StdRng::seed_from_u64(11);
    let mut libraries = [deck.clone(), deck.clone()];
    for library in libraries.iter_mut() {
        library.shuffle(&mut rng);
    }
    let expected: Vec<Vec<String>> = libraries
        .iter()
        .map(|library| {
            library.iter().rev().skip(7).map(|card| format!("Drew card: {}", card.name)).collect()
        })
        .collect();
    let cfg = config("modern", 1, 11);
    let mut again = StdRng::seed_from_u64(11);
    let game = simulate_game(1, &cfg, &deck, &deck, &CardDb::new(), 53, &mut again).unwrap();
    for (k, round) in game.turn_logs.iter().enumerate() {
        assert_eq!(round.player1.actions[3], expected[0][k]);
        assert_eq!(round.player2.as_ref().unwrap().actions[3], expected[1][k]);
    }
    assert_eq!(rng, again);
}

#[test]
fn a_run_starts_from_its_seed() {
    let deck = red_deck();
    let cfg = config("modern", 2, 77);
    let report = run_games(&cfg, &deck, &deck, &db()).unwrap();
    let mut rng = StdRng::seed_from_u64(77);
    for number in 1..=2 {
        let game = simulate_game(number, &cfg, &deck, &deck, &db(), 12, &mut rng).unwrap();
        assert_eq!(game_text(&report.games[number - 1]), game_text(&game));
    }
    let shared = yard_deck();
    let yard = config("Yard", 1, 77);
    let report = run_games(&yard, &shared, &deck, &db()).unwrap();
    let mut rng = StdRng::seed_from_u64(77);
    let game = simulate_game_yard(1, &yard, &shared, &db(), 12, &mut rng).unwrap();
    assert_eq!(game_text(&report.games[0]), game_text(&game));
}

#[test]
fn a_yard_game_starts_with_a_land_each() {
    let cfg = config("yard", 1, 3);
    let deck = cards(&["Blood Pet"; 60]);
    let mut rng = StdRng::seed_from_u64(3);
    let game = simulate_game_yard(1, &cfg, &deck, &db(), 1, &mut rng).unwrap();
    assert!(game.turn_logs[0]
        .player1
        .actions
        .contains(&"Cast creature Blood Pet (1/1)".to_string()));
    assert_eq!(game.player1_cards_seen, vec!["Blood Pet"]);
}

#[test]
fn the_generator_goes_on_from_game_to_game() {
    let cfg = config("modern", 1, 1);
    let deck = distinct_deck();
    let mut rng = StdRng::seed_from_u64(9);
    let one = simulate_game(1, &cfg, &deck, &deck, &db(), 5, &mut rng).unwrap();
    let two = simulate_game(1, &cfg, &deck, &deck, &db(), 5, &mut rng).unwrap();
    assert_ne!(game_text(&one), game_text(&two));
    let mut again = StdRng::seed_from_u64(9);
    let three = simulate_game(1, &cfg, &deck, &deck, &db(), 5, &mut again).unwrap();
    assert_eq!(game_text(&one), game_text(&three));
}

#[test]
fn a_run_depends_on_its_seed_alone() {
    let deck = red_deck();
    let first = run_games(&config("modern", 6, 42), &deck, &deck, &db()).unwrap();
    let second = run_games(&config("modern", 6, 42), &deck, &deck, &db()).unwrap();
    let other = run_games(&config("modern", 6, 43), &deck, &deck, &db()).unwrap();
    assert_eq!(report_text(&first), report_text(&second));
    assert_ne!(report_text(&first), report_text(&other));
    let mut unset = config("modern", 6, 0);
    unset.seed = None;
    let default = run_games(&unset, &deck, &deck, &db()).unwrap();
    assert_eq!(report_text(&first), report_text(&default));
}

#[test]
fn a_report_adds_up() {
    for format in ["modern", "yard"] {
        let deck = if format == "yard" { yard_deck() } else { red_deck() };
        let report = run_games(&config(format, 10, 5), &deck, &deck, &db()).unwrap();
        assert_eq!(report.format, format);
        assert_eq!(report.iterations, 10);
        assert_eq!(report.games.len(), 10);
        assert_eq!(report.player1_wins + report.player2_wins + report.draws, 10);
        let wins = |name: &str| report.games.iter().filter(|game| game.winner == name).count();
        assert_eq!(report.player1_wins, wins("One"));
        assert_eq!(report.player2_wins, wins("Two"));
        assert_eq!(report.draws, wins("Draw"));
        let turns: Vec<usize> = report.games.iter().map(|game| game.turns).collect();
        assert_eq!(report.ending_turns, turns);
        assert_eq!(report.turns_total, turns.iter().sum::<usize>());
        assert_eq!(
            report.player1_life_total,
            report.games.iter().map(|game| game.player1_life as i64).sum::<i64>()
        );
        assert_eq!(
            report.player2_life_total,
            report.games.iter().map(|game| game.player2_life as i64).sum::<i64>()
        );
        for (i, game) in report.games.iter().enumerate() {
            assert_eq!(game.game_number, i + 1);
            assert!(game.turns <= 12);
            assert_eq!(game.turn_logs.len(), game.turns);
            for (k, round) in game.turn_logs.iter().enumerate() {
                assert_eq!(round.turn, k + 1);
            }
            if game.turns < 12 {
                assert!(game.player1_life <= 0 || game.player2_life <= 0);
            }
        }
    }
}

fn empty_report(first: &str, second: &str) -> SimulationReport {
    SimulationReport {
        format: "modern".to_string(),
        iterations: 3,
        player1_name: first.to_string(),
        player2_name: second.to_string(),
        player1_wins: 0,
        player2_wins: 0,
        draws: 0,
        player1_life_total: 0,
        player2_life_total: 0,
        turns_total: 0,
        ending_turns: Vec::new(),
        games: Vec::new(),
    }
}

#[test]
fn games_count_for_their_winner() {
    let mut report = empty_report("A", "B");
    for (winner, lives) in [("A", (5, -1)), ("B", (0, 7)), ("Draw", (3, 3)), ("B", (-2, 1))] {
        assert_eq!(record_game(&mut report, game(1, winner, 4, lives)), Ok(()));
    }
    assert_eq!((report.player1_wins, report.player2_wins, report.draws), (1, 2, 1));
    assert_eq!((report.player1_life_total, report.player2_life_total), (6, 10));
    assert_eq!(report.turns_total, 16);
    assert_eq!(report.ending_turns, vec![4, 4, 4, 4]);
    assert_eq!(report.games.len(), 4);
}

#[test]
fn of_two_players_with_one_name_the_first_wins() {
    let mut report = empty_report("Same", "Same");
    assert_eq!(record_game(&mut report, game(1, "Same", 1, (1, 0))), Ok(()));
    assert_eq!((report.player1_wins, report.player2_wins, report.draws), (1, 0, 0));
}

#[test]
fn totals_out_of_range_are_an_error() {
    let mut report = empty_report("A", "B");
    report.turns_total = usize::MAX;
    assert_eq!(record_game(&mut report, game(1, "A", 1, (1, 0))), Err(OutOfRange));
    assert_eq!(record_game(&mut report, game(1, "A", 0, (1, 0))), Ok(()));
    report.player2_life_total = i64::MIN;
    assert_eq!(record_game(&mut report, game(1, "A", 0, (1, -1))), Err(OutOfRange));
}

#[test]
fn a_run_out_of_range_is_an_error() {
    let mut db = CardDb::new();
    db.insert(
        "doom".to_string(),
        CardProfile {
            name: "Doom".to_string(),
            kind: CardKind::Burn { damage: i32::MAX },
            cmc: 0,
            is_basic_land: false,
            is_mono_black_legal: true,
        },
    );
    let deck = cards(&["Doom"; 60]);
    assert!(matches!(run_games(&config("modern", 1, 1), &deck, &deck, &db), Err(OutOfRange)));
}

fn basic_db() -> CardDb {
    let mut db = CardDb::new();
    db.insert(
        "mountain".to_string(),
        CardProfile {
            name: "Mountain".to_string(),
            kind: CardKind::Land,
            cmc: 0,
            is_basic_land: true,
            is_mono_black_legal: false,
        },
    );
    db
}

#[test]
fn accepted_decks_are_played() {
    let deck = cards(&["Mountain"; 60]);
    let cfg = config("modern", 3, 8);
    let checked = run_checked(&cfg, &deck, &deck, &basic_db()).unwrap();
    let plain = run_games(&cfg, &deck, &deck, &basic_db()).unwrap();
    assert_eq!(report_text(&checked), report_text(&plain));
    assert_eq!(checked.games.len(), 3);
}

#[test]
fn the_first_deck_is_checked_first() {
    let good = cards(&["Mountain"; 60]);
    let small = cards(&["Mountain"; 59]);
    let strange = cards(&["Nobody"; 60]);
    let cfg = config("modern", 1, 8);
    let too_few = || DeckError::TooFewCards {
        count: 59,
        format: "modern".to_string(),
        minimum: 60,
    };
    let unknown = || DeckError::UnknownCard { name: "Nobody".to_string() };
    assert_eq!(
        run_checked(&cfg, &small, &strange, &basic_db()).unwrap_err(),
        RunError::Player1Deck(too_few())
    );
    assert_eq!(
        run_checked(&cfg, &strange, &good, &basic_db()).unwrap_err(),
        RunError::Player1Deck(unknown())
    );
    assert_eq!(
        run_checked(&cfg, &good, &small, &basic_db()).unwrap_err(),
        RunError::Player2Deck(too_few())
    );
}

#[test]
fn a_checked_run_out_of_range_is_an_error() {
    let mut db = basic_db();
    db.insert(
        "doom".to_string(),
        CardProfile {
            name: "Doom".to_string(),
            kind: CardKind::Burn { damage: i32::MAX },
            cmc: 0,
            is_basic_land: true,
            is_mono_black_legal: true,
        },
    );
    let deck = cards(&["Doom"; 60]);
    assert_eq!(
        run_checked(&config("modern", 1, 1), &deck, &deck, &db).unwrap_err(),
        RunError::OutOfRange
    );
}
