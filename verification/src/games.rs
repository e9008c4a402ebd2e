//! Games: dealing, playing rounds, and who wins.

use crate::cards::{card_names, copy_cards, CardDb, Cards, DeckCard};
use crate::config::{first_life, starting_life, PlayerConfig, RunConfig};
use crate::players::{draw_card, draw_card_from_shared, OutOfRange, Player, PlayerState, Table};
use crate::seen::{listing, texts, CardSet};
use crate::text::Text;
use crate::turns::{take_turn, take_turn_yard, turn_draw, turn_taken, PlayerTurnLog, TurnRecord};
use rand::rngs::StdRng;
use rand::seq::SliceRandom;
use rand::SeedableRng;
use vstd::prelude::*;

verus! {

/// The number of cards that a player draws before the game.
pub const STARTING_HAND_SIZE: usize = 7;

/// What is logged of a round. The second player has no turn in a round that the
/// first player's turn ends.
#[derive(Debug)]
pub struct TurnLog {
    pub turn: usize,
    pub player1: PlayerTurnLog,
    pub player2: Option<PlayerTurnLog>,
}

/// The model of a `TurnLog`.
#[verifier::ext_equal]
pub struct RoundRecord {
    pub turn: nat,
    pub player1: TurnRecord,
    pub player2: Option<TurnRecord>,
}

impl View for TurnLog {
    type V = RoundRecord;

    open spec fn view(&self) -> RoundRecord {
        RoundRecord {
            turn: self.turn as nat,
            player1: self.player1@,
            player2: match self.player2 {
                Some(log) => Some(log@),
                None => None,
            },
        }
    }
}

/// The models of a row of round logs.
pub open spec fn round_records(logs: Seq<TurnLog>) -> Seq<RoundRecord> {
    logs.map_values(|log: TurnLog| log@)
}

// ---------------------------------------------------------------------------
// Rounds
// ---------------------------------------------------------------------------

/// The rounds of a game: how many there were, the players after them, and what
/// was logged.
#[verifier::ext_equal]
pub struct Rounds {
    pub turns: nat,
    pub first: Player,
    pub second: Player,
    pub log: Seq<RoundRecord>,
}

/// The same rounds with `before` logged before them.
pub open spec fn rounds_logged(before: Seq<RoundRecord>, rounds: Option<Rounds>) -> Option<Rounds> {
    match rounds {
        Some(done) => Some(Rounds { log: before + done.log, ..done }),
        None => None,
    }
}

/// The rounds from number `turn` to number `max`. A round is a turn of each
/// player. The game ends after a turn that leaves the other player without life.
/// `None` where life, lands or mana leave their range.
pub open spec fn rounds_played(
    first: Player,
    second: Player,
    library: Seq<Text>,
    graveyard: Seq<Text>,
    db: Cards,
    yard: bool,
    turn: nat,
    max: nat,
) -> Option<Rounds>
    decreases max + 1 - turn,
{
    if turn > max {
        Some(Rounds { turns: max, first, second, log: Seq::empty() })
    } else {
        match turn_taken(
            Table { active: first, defending: second, graveyard },
            library,
            db,
            yard,
        ) {
            None => None,
            Some(one) => if one.table.defending.life <= 0 {
                Some(
                    Rounds {
                        turns: turn,
                        first: one.table.active,
                        second: one.table.defending,
                        log: seq![RoundRecord { turn, player1: one.record, player2: None }],
                    },
                )
            } else {
                match turn_taken(
                    Table {
                        active: one.table.defending,
                        defending: one.table.active,
                        graveyard: one.table.graveyard,
                    },
                    one.library,
                    db,
                    yard,
                ) {
                    None => None,
                    Some(two) => {
                        let record = RoundRecord {
                            turn,
                            player1: one.record,
                            player2: Some(two.record),
                        };
                        if two.table.defending.life <= 0 {
                            Some(
                                Rounds {
                                    turns: turn,
                                    first: two.table.defending,
                                    second: two.table.active,
                                    log: seq![record],
                                },
                            )
                        } else {
                            rounds_logged(
                                seq![record],
                                rounds_played(
                                    two.table.defending,
                                    two.table.active,
                                    two.library,
                                    two.table.graveyard,
                                    db,
                                    yard,
                                    turn + 1,
                                    max,
                                ),
                            )
                        }
                    },
                }
            },
        }
    }
}

/// Plays rounds until a player has no life left or `max_turns` rounds are over.
fn play_rounds(
    p1: &mut PlayerState,
    p2: &mut PlayerState,
    card_db: &CardDb,
    max_turns: usize,
) -> (played: Result<(usize, Vec<TurnLog>), OutOfRange>)
    ensures
        match rounds_played(
            old(p1)@,
            old(p2)@,
            Seq::empty(),
            Seq::empty(),
            card_db@,
            false,
            1,
            max_turns as nat,
        ) {
            None => played is Err,
            Some(rounds) => {
                &&& played is Ok
                &&& played->Ok_0.0 == rounds.turns
                &&& round_records(played->Ok_0.1@) == rounds.log
                &&& final(p1)@ == rounds.first
                &&& final(p2)@ == rounds.second
            },
        },
{
    let ghost whole = rounds_played(
        p1@,
        p2@,
        Seq::<Text>::empty(),
        Seq::<Text>::empty(),
        card_db@,
        false,
        1,
        max_turns as nat,
    );
    let mut turns: usize = 0;
    let mut turn_logs: Vec<TurnLog> = Vec::new();
    proof {
        assert(round_records(turn_logs@) =~= Seq::<RoundRecord>::empty());
        if let Some(rounds) = whole {
            assert(Seq::<RoundRecord>::empty() + rounds.log =~= rounds.log);
        }
    }
    while turns < max_turns
        invariant_except_break
            turns <= max_turns,
            whole == rounds_logged(
                round_records(turn_logs@),
                rounds_played(
                    p1@,
                    p2@,
                    Seq::<Text>::empty(),
                    Seq::<Text>::empty(),
                    card_db@,
                    false,
                    (turns + 1) as nat,
                    max_turns as nat,
                ),
            ),
        invariant
            whole == rounds_played(
                old(p1)@,
                old(p2)@,
                Seq::empty(),
                Seq::empty(),
                card_db@,
                false,
                1,
                max_turns as nat,
            ),
        ensures
            whole is Some,
            whole->0.turns == turns,
            whole->0.first == p1@,
            whole->0.second == p2@,
            whole->0.log == round_records(turn_logs@),
        decreases max_turns - turns,
    {
        let ghost log = round_records(turn_logs@);
        turns += 1;
        let p1_turn = match take_turn(p1, p2, card_db) {
            Ok(record) => record,
            Err(error) => {
                return Err(error);
            },
        };
        let ghost one = p1_turn@;
        if p2.life <= 0 {
            turn_logs.push(TurnLog { turn: turns, player1: p1_turn, player2: None });
            proof {
                let record = RoundRecord { turn: turns as nat, player1: one, player2: None };
                assert(round_records(turn_logs@) =~= log + seq![record]);
            }
            break;
        }
        let p2_turn = match take_turn(p2, p1, card_db) {
            Ok(record) => record,
            Err(error) => {
                return Err(error);
            },
        };
        let ghost two = p2_turn@;
        turn_logs.push(TurnLog { turn: turns, player1: p1_turn, player2: Some(p2_turn) });
        let ghost record = RoundRecord {
            turn: turns as nat,
            player1: one,
            player2: Some(two),
        };
        assert(round_records(turn_logs@) =~= log + seq![record]);
        if p1.life <= 0 {
            break;
        }
        proof {
            if let Some(rest) = rounds_played(
                p1@,
                p2@,
                Seq::<Text>::empty(),
                Seq::<Text>::empty(),
                card_db@,
                false,
                (turns + 1) as nat,
                max_turns as nat,
            ) {
                assert(log + (seq![record] + rest.log) =~= round_records(turn_logs@) + rest.log);
            }
        }
    }
    Ok((turns, turn_logs))
}

/// Plays rounds with a shared library until a player has no life left or `max_turns`
/// rounds are over.
fn play_rounds_yard(
    p1: &mut PlayerState,
    p2: &mut PlayerState,
    card_db: &CardDb,
    shared_library: &mut Vec<DeckCard>,
    shared_graveyard: &mut Vec<DeckCard>,
    max_turns: usize,
) -> (played: Result<(usize, Vec<TurnLog>), OutOfRange>)
    ensures
        match rounds_played(
            old(p1)@,
            old(p2)@,
            card_names(old(shared_library)@),
            card_names(old(shared_graveyard)@),
            card_db@,
            true,
            1,
            max_turns as nat,
        ) {
            None => played is Err,
            Some(rounds) => {
                &&& played is Ok
                &&& played->Ok_0.0 == rounds.turns
                &&& round_records(played->Ok_0.1@) == rounds.log
                &&& final(p1)@ == rounds.first
                &&& final(p2)@ == rounds.second
            },
        },
{
    let ghost whole = rounds_played(
        p1@,
        p2@,
        card_names(shared_library@),
        card_names(shared_graveyard@),
        card_db@,
        true,
        1,
        max_turns as nat,
    );
    let mut turns: usize = 0;
    let mut turn_logs: Vec<TurnLog> = Vec::new();
    proof {
        assert(round_records(turn_logs@) =~= Seq::<RoundRecord>::empty());
        if let Some(rounds) = whole {
            assert(Seq::<RoundRecord>::empty() + rounds.log =~= rounds.log);
        }
    }
    while turns < max_turns
        invariant_except_break
            turns <= max_turns,
            whole == rounds_logged(
                round_records(turn_logs@),
                rounds_played(
                    p1@,
                    p2@,
                    card_names(shared_library@),
                    card_names(shared_graveyard@),
                    card_db@,
                    true,
                    (turns + 1) as nat,
                    max_turns as nat,
                ),
            ),
        invariant
            whole == rounds_played(
                old(p1)@,
                old(p2)@,
                card_names(old(shared_library)@),
                card_names(old(shared_graveyard)@),
                card_db@,
                true,
                1,
                max_turns as nat,
            ),
        ensures
            whole is Some,
            whole->0.turns == turns,
            whole->0.first == p1@,
            whole->0.second == p2@,
            whole->0.log == round_records(turn_logs@),
        decreases max_turns - turns,
    {
        let ghost log = round_records(turn_logs@);
        turns += 1;
        let p1_turn = match take_turn_yard(
            p1,
            p2,
            card_db,
            shared_library,
            shared_graveyard,
        ) {
            Ok(record) => record,
            Err(error) => {
                return Err(error);
            },
        };
        let ghost one = p1_turn@;
        if p2.life <= 0 {
            turn_logs.push(TurnLog { turn: turns, player1: p1_turn, player2: None });
            proof {
                let record = RoundRecord { turn: turns as nat, player1: one, player2: None };
                assert(round_records(turn_logs@) =~= log + seq![record]);
            }
            break;
        }
        let p2_turn = match take_turn_yard(
            p2,
            p1,
            card_db,
            shared_library,
            shared_graveyard,
        ) {
            Ok(record) => record,
            Err(error) => {
                return Err(error);
            },
        };
        let ghost two = p2_turn@;
        turn_logs.push(TurnLog { turn: turns, player1: p1_turn, player2: Some(p2_turn) });
        let ghost record = RoundRecord {
            turn: turns as nat,
            player1: one,
            player2: Some(two),
        };
        assert(round_records(turn_logs@) =~= log + seq![record]);
        if p1.life <= 0 {
            break;
        }
        proof {
            if let Some(rest) = rounds_played(
                p1@,
                p2@,
                card_names(shared_library@),
                card_names(shared_graveyard@),
                card_db@,
                true,
                (turns + 1) as nat,
                max_turns as nat,
            ) {
                assert(log + (seq![record] + rest.log) =~= round_records(turn_logs@) + rest.log);
            }
        }
    }
    Ok((turns, turn_logs))
}

// ---------------------------------------------------------------------------
// A game
// ---------------------------------------------------------------------------

/// The opening draws: `n` times each player draws a card, the first player first.
/// Gives the players and the shared library.
pub open spec fn opening(n: nat, first: Player, second: Player, library: Seq<Text>, yard: bool) -> (
    Player,
    Player,
    Seq<Text>,
)
    decreases n,
{
    if n == 0 {
        (first, second, library)
    } else {
        let (one, stock, _) = turn_draw(first, library, yard);
        let (two, rest, _) = turn_draw(second, stock, yard);
        opening((n - 1) as nat, one, two, rest, yard)
    }
}

/// The name of the winner: the player who has life left when the other has none,
/// or else the one with more life; "Draw" where neither is ahead.
pub open spec fn winner(first: Player, second: Player) -> Text {
    if first.life <= 0 && second.life <= 0 {
        "Draw"@
    } else if second.life <= 0 {
        first.name
    } else if first.life <= 0 {
        second.name
    } else if first.life > second.life {
        first.name
    } else if second.life > first.life {
        second.name
    } else {
        "Draw"@
    }
}

/// The result of a game.
#[derive(Debug)]
pub struct GameResult {
    pub game_number: usize,
    pub winner: String,
    pub turns: usize,
    pub player1_life: i32,
    pub player2_life: i32,
    pub player1_cards_seen: Vec<String>,
    pub player2_cards_seen: Vec<String>,
    pub turn_logs: Vec<TurnLog>,
}

/// The model of a `GameResult`.
#[verifier::ext_equal]
pub struct GameRecord {
    pub number: nat,
    pub winner: Text,
    pub turns: nat,
    pub player1_life: int,
    pub player2_life: int,
    pub player1_cards_seen: Seq<Text>,
    pub player2_cards_seen: Seq<Text>,
    pub log: Seq<RoundRecord>,
}

impl View for GameResult {
    type V = GameRecord;

    open spec fn view(&self) -> GameRecord {
        GameRecord {
            number: self.game_number as nat,
            winner: self.winner@,
            turns: self.turns as nat,
            player1_life: self.player1_life as int,
            player2_life: self.player2_life as int,
            player1_cards_seen: texts(self.player1_cards_seen@),
            player2_cards_seen: texts(self.player2_cards_seen@),
            log: round_records(self.turn_logs@),
        }
    }
}

/// The record of a game that ended with these rounds.
pub open spec fn game_recorded(number: nat, rounds: Rounds) -> GameRecord {
    GameRecord {
        number,
        winner: winner(rounds.first, rounds.second),
        turns: rounds.turns,
        player1_life: rounds.first.life,
        player2_life: rounds.second.life,
        player1_cards_seen: listing(rounds.first.seen),
        player2_cards_seen: listing(rounds.second.seen),
        log: rounds.log,
    }
}

/// A game between two seated players. `library` is the shared one of the yard
/// format. `None` where life, lands or mana leave their range.
pub open spec fn game_played(
    number: nat,
    first: Player,
    second: Player,
    library: Seq<Text>,
    db: Cards,
    max: nat,
    yard: bool,
) -> Option<GameRecord> {
    let (one, two, stock) = opening(STARTING_HAND_SIZE as nat, first, second, library, yard);
    match rounds_played(one, two, stock, Seq::empty(), db, yard, 1, max) {
        None => None,
        Some(rounds) => Some(game_recorded(number, rounds)),
    }
}

/// Whether a function that returned `result` has played `game`.
pub open spec fn is_game(result: Result<GameResult, OutOfRange>, game: Option<GameRecord>) -> bool {
    match game {
        Some(record) => result is Ok && result->Ok_0@ == record,
        None => result is Err,
    }
}

/// The name of the winner.
pub fn decide_winner(p1: &PlayerState, p2: &PlayerState) -> (name: String)
    ensures
        name@ == winner(p1@, p2@),
{
    if p1.life <= 0 && p2.life <= 0 {
        "Draw".to_string()
    } else if p2.life <= 0 {
        p1.name.clone()
    } else if p1.life <= 0 {
        p2.name.clone()
    } else if p1.life > p2.life {
        p1.name.clone()
    } else if p2.life > p1.life {
        p2.name.clone()
    } else {
        "Draw".to_string()
    }
}

fn game_result(
    game_number: usize,
    p1: &PlayerState,
    p2: &PlayerState,
    turns: usize,
    turn_logs: Vec<TurnLog>,
) -> (result: GameResult)
    ensures
        result@ == game_recorded(
            game_number as nat,
            Rounds {
                turns: turns as nat,
                first: p1@,
                second: p2@,
                log: round_records(turn_logs@),
            },
        ),
{
    GameResult {
        game_number,
        winner: decide_winner(p1, p2),
        turns,
        player1_life: p1.life,
        player2_life: p2.life,
        player1_cards_seen: p1.cards_seen.sorted(),
        player2_cards_seen: p2.cards_seen.sorted(),
        turn_logs,
    }
}

/// Plays a game between two players with shuffled libraries.
pub fn play_game(
    game_number: usize,
    p1: PlayerState,
    p2: PlayerState,
    card_db: &CardDb,
    max_turns: usize,
) -> (result: Result<GameResult, OutOfRange>)
    ensures
        is_game(
            result,
            game_played(
                game_number as nat,
                p1@,
                p2@,
                Seq::empty(),
                card_db@,
                max_turns as nat,
                false,
            ),
        ),
{
    let mut first = p1;
    let mut second = p2;
    let mut drawn: usize = 0;
    while drawn < STARTING_HAND_SIZE
        invariant
            drawn <= STARTING_HAND_SIZE,
            opening(STARTING_HAND_SIZE as nat, p1@, p2@, Seq::empty(), false) == opening(
                (STARTING_HAND_SIZE - drawn) as nat,
                first@,
                second@,
                Seq::empty(),
                false,
            ),
        decreases STARTING_HAND_SIZE - drawn,
    {
        let _ = draw_card(&mut first);
        let _ = draw_card(&mut second);
        drawn += 1;
    }
    match play_rounds(&mut first, &mut second, card_db, max_turns) {
        Ok((turns, turn_logs)) => Ok(game_result(game_number, &first, &second, turns, turn_logs)),
        Err(error) => Err(error),
    }
}

/// Plays a game between two players with a shuffled library that they share.
pub fn play_game_yard(
    game_number: usize,
    p1: PlayerState,
    p2: PlayerState,
    shared_library: Vec<DeckCard>,
    card_db: &CardDb,
    max_turns: usize,
) -> (result: Result<GameResult, OutOfRange>)
    ensures
        is_game(
            result,
            game_played(
                game_number as nat,
                p1@,
                p2@,
                card_names(shared_library@),
                card_db@,
                max_turns as nat,
                true,
            ),
        ),
{
    let mut first = p1;
    let mut second = p2;
    let mut library = shared_library;
    let mut graveyard: Vec<DeckCard> = Vec::new();
    assert(card_names(graveyard@) =~= Seq::<Text>::empty());
    let mut drawn: usize = 0;
    while drawn < STARTING_HAND_SIZE
        invariant
            drawn <= STARTING_HAND_SIZE,
            opening(
                STARTING_HAND_SIZE as nat,
                p1@,
                p2@,
                card_names(shared_library@),
                true,
            ) == opening(
                (STARTING_HAND_SIZE - drawn) as nat,
                first@,
                second@,
                card_names(library@),
                true,
            ),
        decreases STARTING_HAND_SIZE - drawn,
    {
        let _ = draw_card_from_shared(&mut first, &mut library);
        let _ = draw_card_from_shared(&mut second, &mut library);
        drawn += 1;
    }
    match play_rounds_yard(
        &mut first,
        &mut second,
        card_db,
        &mut library,
        &mut graveyard,
        max_turns,
    ) {
        Ok((turns, turn_logs)) => Ok(game_result(game_number, &first, &second, turns, turn_logs)),
        Err(error) => Err(error),
    }
}

// ---------------------------------------------------------------------------
// Shuffling
// ---------------------------------------------------------------------------

/// The random number generator of the `rand` crate.
#[verifier::external_type_specification]
#[verifier::external_body]
pub struct ExStdRng(StdRng);

/// What a generator holds: the words from which its numbers are computed.
pub uninterp spec fn generator_state(rng: StdRng) -> Seq<u64>;

/// What a generator holds when it is fresh from `StdRng::seed_from_u64`.
pub uninterp spec fn seeded_state(seed: u64) -> Seq<u64>;

/// What `SliceRandom::shuffle` does to a row of `n` entries with a generator that
/// holds `state`: the order into which it puts the entries, and what the generator
/// holds after it.
pub uninterp spec fn shuffle_outcome(state: Seq<u64>, n: nat) -> (Seq<int>, Seq<u64>);

/// Whether `order` names each of the first `n` positions once.
pub open spec fn is_order(order: Seq<int>, n: nat) -> bool {
    &&& order.len() == n
    &&& forall|i: int| 0 <= i < n ==> 0 <= #[trigger] order[i] < n
    &&& forall|i: int, j: int| 0 <= i < j < n ==> #[trigger] order[i] != #[trigger] order[j]
}

/// The row that takes its entries from `row` in this order.
pub open spec fn reordered<T>(row: Seq<T>, order: Seq<int>) -> Seq<T> {
    order.map_values(|i: int| row[i])
}

/// `StdRng::seed_from_u64`. The generator is fixed by the seed; what it holds is only
/// named.
#[verifier::external_body]
pub(crate) fn seeded_rng(seed: u64) -> (rng: StdRng)
    ensures
        generator_state(rng) == seeded_state(seed),
{
    StdRng::seed_from_u64(seed)
}

/// `SliceRandom::shuffle` with a `StdRng`. It swaps entries of the row, so that the
/// row holds the same cards after it. The generator is deterministic, and the
/// positions to swap come from it and the length of the row alone: the order and what
/// the generator holds after it are fixed by these two, and are only named.
#[verifier::external_body]
fn shuffle_cards(cards: &mut Vec<DeckCard>, rng: &mut StdRng)
    ensures
        ({
            let (order, state) = shuffle_outcome(generator_state(*old(rng)), old(cards)@.len());
            &&& is_order(order, old(cards)@.len())
            &&& final(cards)@ == reordered(old(cards)@, order)
            &&& generator_state(*final(rng)) == state
        }),
{
    cards.shuffle(rng);
}

/// A player before the opening draws.
pub open spec fn seated(player: PlayerConfig, library: Seq<Text>, lands: int) -> Player {
    Player {
        name: player.name@,
        life: first_life(player),
        library,
        hand: Seq::empty(),
        battlefield: Seq::empty(),
        graveyard: Seq::empty(),
        lands,
        pool: 0,
        seen: Set::empty(),
    }
}

/// Seats a player with a library and some lands in play.
pub fn seat_player(player: &PlayerConfig, library: Vec<DeckCard>, lands: u32) -> (state:
    PlayerState)
    ensures
        state@ == seated(*player, card_names(library@), lands as int),
{
    let state = PlayerState {
        name: player.name.clone(),
        life: starting_life(player),
        library,
        hand: Vec::new(),
        battlefield: Vec::new(),
        graveyard: Vec::new(),
        lands_in_play: lands,
        mana_pool: 0,
        cards_seen: CardSet::new(),
    };
    assert(state@ =~= seated(*player, card_names(library@), lands as int));
    state
}

/// The orders into which the decks of a game are shuffled, and what the generator
/// holds after that. The yard format uses the first order only.
#[verifier::ext_equal]
pub struct Deal {
    pub first: Seq<int>,
    pub second: Seq<int>,
    pub state: Seq<u64>,
}

/// The deal of two decks of these sizes by a generator that holds `state`.
pub open spec fn deal_from(state: Seq<u64>, size1: nat, size2: nat) -> Deal {
    let (first, middle) = shuffle_outcome(state, size1);
    let (second, last) = shuffle_outcome(middle, size2);
    Deal { first, second, state: last }
}

/// The deal of one shared deck of this size by a generator that holds `state`.
pub open spec fn yard_deal_from(state: Seq<u64>, size: nat) -> Deal {
    let (first, last) = shuffle_outcome(state, size);
    Deal { first, second: Seq::empty(), state: last }
}

/// The game that a deal of two decks leads to.
pub open spec fn game_dealt(
    number: nat,
    cfg: RunConfig,
    deck1: Seq<Text>,
    deck2: Seq<Text>,
    db: Cards,
    max: nat,
    deal: Deal,
) -> Option<GameRecord> {
    game_played(
        number,
        seated(cfg.player1, reordered(deck1, deal.first), 0),
        seated(cfg.player2, reordered(deck2, deal.second), 0),
        Seq::empty(),
        db,
        max,
        false,
    )
}

/// The game that a deal of one shared deck leads to. Each player starts with a land
/// in play.
pub open spec fn yard_game_dealt(
    number: nat,
    cfg: RunConfig,
    deck: Seq<Text>,
    db: Cards,
    max: nat,
    deal: Deal,
) -> Option<GameRecord> {
    game_played(
        number,
        seated(cfg.player1, Seq::empty(), 1),
        seated(cfg.player2, Seq::empty(), 1),
        reordered(deck, deal.first),
        db,
        max,
        true,
    )
}

/// A copy of a deck in random order.
fn shuffled_copy(deck: &[DeckCard], rng: &mut StdRng) -> (cards: Vec<DeckCard>)
    ensures
        ({
            let (order, state) = shuffle_outcome(generator_state(*old(rng)), deck@.len());
            &&& is_order(order, deck@.len())
            &&& card_names(cards@) == reordered(card_names(deck@), order)
            &&& generator_state(*final(rng)) == state
        }),
{
    let mut cards = copy_cards(deck);
    let ghost plain = cards@;
    assert(card_names(plain).len() == card_names(deck@).len());
    let ghost order = shuffle_outcome(generator_state(*rng), deck@.len()).0;
    shuffle_cards(&mut cards, rng);
    assert(card_names(cards@) =~= reordered(card_names(plain), order));
    cards
}

/// Plays a game with two decks in random order.
pub fn simulate_game(
    game_number: usize,
    cfg: &RunConfig,
    p1_deck: &[DeckCard],
    p2_deck: &[DeckCard],
    card_db: &CardDb,
    max_turns: usize,
    rng: &mut StdRng,
) -> (result: Result<GameResult, OutOfRange>)
    ensures
        ({
            let deal = deal_from(generator_state(*old(rng)), p1_deck@.len(), p2_deck@.len());
            &&& is_order(deal.first, p1_deck@.len())
            &&& is_order(deal.second, p2_deck@.len())
            &&& generator_state(*final(rng)) == deal.state
            &&& is_game(
                result,
                game_dealt(
                    game_number as nat,
                    *cfg,
                    card_names(p1_deck@),
                    card_names(p2_deck@),
                    card_db@,
                    max_turns as nat,
                    deal,
                ),
            )
        }),
{
    let library1 = shuffled_copy(p1_deck, rng);
    let library2 = shuffled_copy(p2_deck, rng);
    let p1 = seat_player(&cfg.player1, library1, 0);
    let p2 = seat_player(&cfg.player2, library2, 0);
    play_game(game_number, p1, p2, card_db, max_turns)
}

/// Plays a game of the yard format with a deck in random order.
pub fn simulate_game_yard(
    game_number: usize,
    cfg: &RunConfig,
    shared_deck: &[DeckCard],
    card_db: &CardDb,
    max_turns: usize,
    rng: &mut StdRng,
) -> (result: Result<GameResult, OutOfRange>)
    ensures
        ({
            let deal = yard_deal_from(generator_state(*old(rng)), shared_deck@.len());
            &&& is_order(deal.first, shared_deck@.len())
            &&& generator_state(*final(rng)) == deal.state
            &&& is_game(
                result,
                yard_game_dealt(
                    game_number as nat,
                    *cfg,
                    card_names(shared_deck@),
                    card_db@,
                    max_turns as nat,
                    deal,
                ),
            )
        }),
{
    let library = shuffled_copy(shared_deck, rng);
    let none1: Vec<DeckCard> = Vec::new();
    let none2: Vec<DeckCard> = Vec::new();
    assert(card_names(none1@) =~= Seq::<Text>::empty());
    assert(card_names(none2@) =~= Seq::<Text>::empty());
    let p1 = seat_player(&cfg.player1, none1, 1);
    let p2 = seat_player(&cfg.player2, none2, 1);
    play_game_yard(game_number, p1, p2, library, card_db, max_turns)
}

} // verus!
