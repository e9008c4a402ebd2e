//! Runs of several games, and the report on them.

use crate::cards::{card_names, CardDb, Cards, DeckCard};
use crate::config::{first_seed, max_turns, random_seed, turn_limit, RunConfig};
use crate::decks::{deck_fault, is_yard, is_yard_format, validate_deck, DeckError};
use crate::games::{
    deal_from, game_dealt, generator_state, is_game, is_order, seeded_rng, seeded_state,
    simulate_game, simulate_game_yard, yard_deal_from, yard_game_dealt, Deal, GameRecord,
    GameResult,
};
use crate::players::OutOfRange;
use crate::text::{same_text, Text};
use vstd::prelude::*;

verus! {

/// The report on a run: the totals from which averages and rates are taken, and
/// the games one by one.
#[derive(Debug)]
pub struct SimulationReport {
    pub format: String,
    pub iterations: usize,
    pub player1_name: String,
    pub player2_name: String,
    pub player1_wins: usize,
    pub player2_wins: usize,
    pub draws: usize,
    pub player1_life_total: i64,
    pub player2_life_total: i64,
    pub turns_total: usize,
    pub ending_turns: Vec<usize>,
    pub games: Vec<GameResult>,
}

/// The model of a `SimulationReport`.
#[verifier::ext_equal]
pub struct Report {
    pub format: Text,
    pub iterations: nat,
    pub player1_name: Text,
    pub player2_name: Text,
    pub player1_wins: nat,
    pub player2_wins: nat,
    pub draws: nat,
    pub player1_life_total: int,
    pub player2_life_total: int,
    pub turns_total: nat,
    pub ending_turns: Seq<nat>,
    pub games: Seq<GameRecord>,
}

impl View for SimulationReport {
    type V = Report;

    open spec fn view(&self) -> Report {
        Report {
            format: self.format@,
            iterations: self.iterations as nat,
            player1_name: self.player1_name@,
            player2_name: self.player2_name@,
            player1_wins: self.player1_wins as nat,
            player2_wins: self.player2_wins as nat,
            draws: self.draws as nat,
            player1_life_total: self.player1_life_total as int,
            player2_life_total: self.player2_life_total as int,
            turns_total: self.turns_total as nat,
            ending_turns: self.ending_turns@.map_values(|turns: usize| turns as nat),
            games: self.games@.map_values(|game: GameResult| game@),
        }
    }
}

/// Whether the totals of a report fit in their machine integers.
pub open spec fn totals_fit(report: Report) -> bool {
    &&& i64::MIN <= report.player1_life_total <= i64::MAX
    &&& i64::MIN <= report.player2_life_total <= i64::MAX
    &&& report.turns_total <= usize::MAX
    &&& report.player1_wins <= usize::MAX
    &&& report.player2_wins <= usize::MAX
    &&& report.draws <= usize::MAX
}

/// A report with one game more. The game counts for the player whose name the
/// winner bears, the first player first, and else as a draw.
pub open spec fn with_game(report: Report, game: GameRecord) -> Report {
    let first = game.winner == report.player1_name;
    let second = !first && game.winner == report.player2_name;
    Report {
        player1_wins: report.player1_wins + if first {
            1nat
        } else {
            0nat
        },
        player2_wins: report.player2_wins + if second {
            1nat
        } else {
            0nat
        },
        draws: report.draws + if !first && !second {
            1nat
        } else {
            0nat
        },
        player1_life_total: report.player1_life_total + game.player1_life,
        player2_life_total: report.player2_life_total + game.player2_life,
        turns_total: report.turns_total + game.turns,
        ending_turns: report.ending_turns.push(game.turns),
        games: report.games.push(game),
        ..report
    }
}

/// A report before the first game.
pub open spec fn blank_report(cfg: RunConfig) -> Report {
    Report {
        format: cfg.format@,
        iterations: cfg.iterations as nat,
        player1_name: cfg.player1.name@,
        player2_name: cfg.player2.name@,
        player1_wins: 0,
        player2_wins: 0,
        draws: 0,
        player1_life_total: 0,
        player2_life_total: 0,
        turns_total: 0,
        ending_turns: Seq::empty(),
        games: Seq::empty(),
    }
}

/// Adds a game to a report. An error where a total leaves its range.
pub fn record_game(report: &mut SimulationReport, result: GameResult) -> (done: Result<
    (),
    OutOfRange,
>)
    ensures
        done is Ok <==> totals_fit(with_game(old(report)@, result@)),
        done is Ok ==> final(report)@ == with_game(old(report)@, result@),
{
    let first = same_text(result.winner.as_str(), report.player1_name.as_str());
    let second = !first && same_text(result.winner.as_str(), report.player2_name.as_str());
    let life1 = report.player1_life_total.checked_add(result.player1_life as i64);
    let life2 = report.player2_life_total.checked_add(result.player2_life as i64);
    let turns = report.turns_total.checked_add(result.turns);
    let wins1 = report.player1_wins.checked_add(if first {
        1
    } else {
        0
    });
    let wins2 = report.player2_wins.checked_add(if second {
        1
    } else {
        0
    });
    let draws = report.draws.checked_add(if !first && !second {
        1
    } else {
        0
    });
    match (life1, life2, turns, wins1, wins2, draws) {
        (Some(life1), Some(life2), Some(turns), Some(wins1), Some(wins2), Some(draws)) => {
            report.player1_life_total = life1;
            report.player2_life_total = life2;
            report.turns_total = turns;
            report.player1_wins = wins1;
            report.player2_wins = wins2;
            report.draws = draws;
            report.ending_turns.push(result.turns);
            let ghost game = result@;
            report.games.push(result);
            proof {
                assert(report@.ending_turns =~= old(report)@.ending_turns.push(game.turns));
                assert(report@.games =~= old(report)@.games.push(game));
                assert(report@ =~= with_game(old(report)@, game));
            }
            Ok(())
        },
        _ => Err(OutOfRange),
    }
}

/// Game number `k` (from 0) of a run, when it is dealt so.
pub open spec fn run_game(
    cfg: RunConfig,
    deck1: Seq<Text>,
    deck2: Seq<Text>,
    db: Cards,
    k: nat,
    deal: Deal,
) -> Option<GameRecord> {
    if is_yard(cfg.format@) {
        yard_game_dealt(k + 1, cfg, deck1, db, turn_limit(cfg), deal)
    } else {
        game_dealt(k + 1, cfg, deck1, deck2, db, turn_limit(cfg), deal)
    }
}

/// The report on the games that these deals lead to. `None` where a game or a
/// total leaves its range.
pub open spec fn report_on(
    cfg: RunConfig,
    deck1: Seq<Text>,
    deck2: Seq<Text>,
    db: Cards,
    deals: Seq<Deal>,
) -> Option<Report>
    decreases deals.len(),
{
    if deals.len() == 0 {
        Some(blank_report(cfg))
    } else {
        let k = (deals.len() - 1) as nat;
        match (
            report_on(cfg, deck1, deck2, db, deals.drop_last()),
            run_game(cfg, deck1, deck2, db, k, deals.last()),
        ) {
            (Some(report), Some(game)) => if totals_fit(with_game(report, game)) {
                Some(with_game(report, game))
            } else {
                None
            },
            _ => None,
        }
    }
}

/// Whether each of the deals of a run names every card of a deck once.
pub open spec fn are_deals(cfg: RunConfig, deals: Seq<Deal>, size1: nat, size2: nat) -> bool {
    forall|k: int|
        #![trigger deals[k]]
        0 <= k < deals.len() ==> is_order(deals[k].first, size1) && (is_yard(cfg.format@)
            || is_order(deals[k].second, size2))
}

/// What the generator holds after some deals, where it held `state` before them.
pub open spec fn state_after(state: Seq<u64>, deals: Seq<Deal>) -> Seq<u64> {
    if deals.len() == 0 {
        state
    } else {
        deals.last().state
    }
}

/// The first `n` deals of a run with decks of these sizes, by a generator that holds
/// `state`.
pub open spec fn run_deals(cfg: RunConfig, size1: nat, size2: nat, state: Seq<u64>, n: nat) -> Seq<
    Deal,
>
    decreases n,
{
    if n == 0 {
        Seq::empty()
    } else {
        let before = run_deals(cfg, size1, size2, state, (n - 1) as nat);
        let now = state_after(state, before);
        before.push(
            if is_yard(cfg.format@) {
                yard_deal_from(now, size1)
            } else {
                deal_from(now, size1, size2)
            },
        )
    }
}

/// There are as many deals as games.
proof fn lemma_run_deals(cfg: RunConfig, size1: nat, size2: nat, state: Seq<u64>, n: nat)
    ensures
        run_deals(cfg, size1, size2, state, n).len() == n,
    decreases n,
{
    if n > 0 {
        lemma_run_deals(cfg, size1, size2, state, (n - 1) as nat);
    }
}

/// A run of which no report can be given has none however long it goes on.
proof fn lemma_no_report(
    cfg: RunConfig,
    deck1: Seq<Text>,
    deck2: Seq<Text>,
    db: Cards,
    state: Seq<u64>,
    k: nat,
    n: nat,
)
    requires
        k <= n,
        report_on(
            cfg,
            deck1,
            deck2,
            db,
            run_deals(cfg, deck1.len(), deck2.len(), state, k),
        ) is None,
    ensures
        report_on(
            cfg,
            deck1,
            deck2,
            db,
            run_deals(cfg, deck1.len(), deck2.len(), state, n),
        ) is None,
    decreases n - k,
{
    if k < n {
        let deals = run_deals(cfg, deck1.len(), deck2.len(), state, k + 1);
        assert(deals.drop_last() =~= run_deals(cfg, deck1.len(), deck2.len(), state, k));
        lemma_no_report(cfg, deck1, deck2, db, state, k + 1, n);
    }
}

/// How many games of a row were won by the player called `name`.
pub open spec fn won_by(games: Seq<GameRecord>, name: Text) -> nat
    decreases games.len(),
{
    if games.len() == 0 {
        0
    } else {
        won_by(games.drop_last(), name) + if games.last().winner == name {
            1nat
        } else {
            0nat
        }
    }
}

/// The rounds of a row of games.
pub open spec fn turns_of(games: Seq<GameRecord>) -> nat
    decreases games.len(),
{
    if games.len() == 0 {
        0
    } else {
        turns_of(games.drop_last()) + games.last().turns
    }
}

/// What the first players of a row of games had left of their life.
pub open spec fn first_lives_of(games: Seq<GameRecord>) -> int
    decreases games.len(),
{
    if games.len() == 0 {
        0
    } else {
        first_lives_of(games.drop_last()) + games.last().player1_life
    }
}

/// What the second players of a row of games had left of their life.
pub open spec fn second_lives_of(games: Seq<GameRecord>) -> int
    decreases games.len(),
{
    if games.len() == 0 {
        0
    } else {
        second_lives_of(games.drop_last()) + games.last().player2_life
    }
}

/// A report holds the game of each deal, numbered from 1, and its figures are those of
/// its games. Every game counts once: for one of the players, or as a draw. Of two
/// players with one name the first has all the wins.
pub proof fn lemma_report_adds_up(
    cfg: RunConfig,
    deck1: Seq<Text>,
    deck2: Seq<Text>,
    db: Cards,
    deals: Seq<Deal>,
)
    ensures
        report_on(cfg, deck1, deck2, db, deals) matches Some(report) ==> {
            &&& report.format == cfg.format@
            &&& report.iterations == cfg.iterations
            &&& report.player1_name == cfg.player1.name@
            &&& report.player2_name == cfg.player2.name@
            &&& report.games.len() == deals.len()
            &&& forall|k: int|
                0 <= k < deals.len() ==> run_game(
                    cfg,
                    deck1,
                    deck2,
                    db,
                    k as nat,
                    #[trigger] deals[k],
                ) == Some(report.games[k])
            &&& forall|k: int|
                0 <= k < deals.len() ==> (#[trigger] report.games[k]).number == k + 1
            &&& report.ending_turns == report.games.map_values(|game: GameRecord| game.turns)
            &&& report.player1_wins == won_by(report.games, cfg.player1.name@)
            &&& report.player2_wins == if cfg.player1.name@ == cfg.player2.name@ {
                0
            } else {
                won_by(report.games, cfg.player2.name@)
            }
            &&& report.player1_wins + report.player2_wins + report.draws == report.games.len()
            &&& report.turns_total == turns_of(report.games)
            &&& report.player1_life_total == first_lives_of(report.games)
            &&& report.player2_life_total == second_lives_of(report.games)
        },
    decreases deals.len(),
{
    if deals.len() > 0 {
        lemma_report_adds_up(cfg, deck1, deck2, db, deals.drop_last());
        if let Some(report) = report_on(cfg, deck1, deck2, db, deals) {
            let before = report_on(cfg, deck1, deck2, db, deals.drop_last())->0;
            let last = report.games.len() - 1;
            assert(report.games.drop_last() =~= before.games);
            assert(report.ending_turns =~= report.games.map_values(|game: GameRecord| game.turns));
            assert forall|k: int| 0 <= k < deals.len() implies run_game(
                cfg,
                deck1,
                deck2,
                db,
                k as nat,
                #[trigger] deals[k],
            ) == Some(report.games[k]) by {
                if k < last {
                    assert(deals.drop_last()[k] == deals[k]);
                    assert(report.games[k] == before.games[k]);
                }
            }
            assert forall|k: int| 0 <= k < deals.len() implies (#[trigger] report.games[k]).number
                == k + 1 by {
                if k < last {
                    assert(report.games[k] == before.games[k]);
                }
            }
        }
    } else {
        let blank = blank_report(cfg);
        assert(blank.ending_turns =~= blank.games.map_values(|game: GameRecord| game.turns));
    }
}

/// Plays the games of a run and reports on them. The report is fixed by the
/// configuration, the decks and the card database. An error where a game or a total
/// leaves its range. In the yard format the first deck is the shared one.
pub fn run_games(
    cfg: &RunConfig,
    p1_deck: &[DeckCard],
    p2_deck: &[DeckCard],
    card_db: &CardDb,
) -> (report: Result<SimulationReport, OutOfRange>)
    ensures
        ({
            let deals = run_deals(
                *cfg,
                p1_deck@.len(),
                p2_deck@.len(),
                seeded_state(first_seed(*cfg)),
                cfg.iterations as nat,
            );
            match report_on(*cfg, card_names(p1_deck@), card_names(p2_deck@), card_db@, deals) {
                Some(expected) => {
                    &&& report is Ok
                    &&& report->Ok_0@ == expected
                    &&& are_deals(*cfg, deals, p1_deck@.len(), p2_deck@.len())
                },
                None => report is Err,
            }
        }),
{
    let ghost names1 = card_names(p1_deck@);
    let ghost names2 = card_names(p2_deck@);
    let ghost start = seeded_state(first_seed(*cfg));
    let mut report = SimulationReport {
        format: cfg.format.clone(),
        iterations: cfg.iterations,
        player1_name: cfg.player1.name.clone(),
        player2_name: cfg.player2.name.clone(),
        player1_wins: 0,
        player2_wins: 0,
        draws: 0,
        player1_life_total: 0,
        player2_life_total: 0,
        turns_total: 0,
        ending_turns: Vec::new(),
        games: Vec::new(),
    };
    let limit = max_turns(cfg);
    let yard = is_yard_format(cfg.format.as_str());
    let mut rng = seeded_rng(random_seed(cfg));
    let mut game_number: usize = 0;
    assert(report@ =~= blank_report(*cfg));
    while game_number < cfg.iterations
        invariant
            names1 == card_names(p1_deck@),
            names2 == card_names(p2_deck@),
            start == seeded_state(first_seed(*cfg)),
            limit == turn_limit(*cfg),
            yard == is_yard(cfg.format@),
            game_number <= cfg.iterations,
            ({
                let deals = run_deals(
                    *cfg,
                    p1_deck@.len(),
                    p2_deck@.len(),
                    start,
                    game_number as nat,
                );
                &&& are_deals(*cfg, deals, p1_deck@.len(), p2_deck@.len())
                &&& generator_state(rng) == state_after(start, deals)
                &&& report_on(*cfg, names1, names2, card_db@, deals) == Some(report@)
            }),
        decreases cfg.iterations - game_number,
    {
        let ghost before = run_deals(
            *cfg,
            p1_deck@.len(),
            p2_deck@.len(),
            start,
            game_number as nat,
        );
        game_number += 1;
        let ghost deals = run_deals(
            *cfg,
            p1_deck@.len(),
            p2_deck@.len(),
            start,
            game_number as nat,
        );
        let result = if yard {
            simulate_game_yard(game_number, cfg, p1_deck, card_db, limit, &mut rng)
        } else {
            simulate_game(game_number, cfg, p1_deck, p2_deck, card_db, limit, &mut rng)
        };
        proof {
            lemma_run_deals(
                *cfg,
                p1_deck@.len(),
                p2_deck@.len(),
                start,
                game_number as nat,
            );
            assert(deals.drop_last() =~= before);
            assert forall|k: int| #![trigger deals[k]] 0 <= k < deals.len() implies is_order(
                deals[k].first,
                p1_deck@.len(),
            ) && (is_yard(cfg.format@) || is_order(deals[k].second, p2_deck@.len())) by {
                if k < before.len() {
                    assert(deals[k] == before[k]);
                }
            }
            assert(is_game(
                result,
                run_game(*cfg, names1, names2, card_db@, (deals.len() - 1) as nat, deals.last()),
            ));
            if report_on(*cfg, names1, names2, card_db@, deals) is None {
                lemma_no_report(
                    *cfg,
                    names1,
                    names2,
                    card_db@,
                    start,
                    game_number as nat,
                    cfg.iterations as nat,
                );
            }
        }
        let game = match result {
            Ok(game) => game,
            Err(error) => {
                return Err(error);
            },
        };
        match record_game(&mut report, game) {
            Ok(()) => {},
            Err(error) => {
                return Err(error);
            },
        }
    }
    Ok(report)
}

/// Why there is no report on a run.
#[derive(Debug, PartialEq, Eq)]
pub enum RunError {
    /// The first player's deck is not accepted.
    Player1Deck(DeckError),
    /// The second player's deck is not accepted.
    Player2Deck(DeckError),
    /// A game or a total has left its range.
    OutOfRange,
}

/// Holds both decks against the rules of the configured format, the first player's
/// first, and plays the games of the run if they are accepted.
pub fn run_checked(
    cfg: &RunConfig,
    p1_deck: &[DeckCard],
    p2_deck: &[DeckCard],
    card_db: &CardDb,
) -> (report: Result<SimulationReport, RunError>)
    ensures
        ({
            let names1 = card_names(p1_deck@);
            let names2 = card_names(p2_deck@);
            let deals = run_deals(
                *cfg,
                p1_deck@.len(),
                p2_deck@.len(),
                seeded_state(first_seed(*cfg)),
                cfg.iterations as nat,
            );
            match deck_fault(cfg.format@, names1, card_db@) {
                Some(fault) => report matches Err(RunError::Player1Deck(error)) && error@ == fault,
                None => match deck_fault(cfg.format@, names2, card_db@) {
                    Some(fault) => report matches Err(RunError::Player2Deck(error)) && error@
                        == fault,
                    None => match report_on(*cfg, names1, names2, card_db@, deals) {
                        Some(expected) => {
                            &&& report is Ok
                            &&& report->Ok_0@ == expected
                            &&& are_deals(*cfg, deals, p1_deck@.len(), p2_deck@.len())
                        },
                        None => report matches Err(RunError::OutOfRange),
                    },
                },
            }
        }),
{
    if let Err(error) = validate_deck(cfg.format.as_str(), p1_deck, card_db) {
        return Err(RunError::Player1Deck(error));
    }
    if let Err(error) = validate_deck(cfg.format.as_str(), p2_deck, card_db) {
        return Err(RunError::Player2Deck(error));
    }
    match run_games(cfg, p1_deck, p2_deck, card_db) {
        Ok(report) => Ok(report),
        Err(_) => Err(RunError::OutOfRange),
    }
}

} // verus!
