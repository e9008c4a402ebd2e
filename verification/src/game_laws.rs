//! What holds of every game and every report.

use crate::cards::Cards;
use crate::combat::attacked;
use crate::config::{first_seed, oracle_cards, RunConfig, ScryfallBulkItem};
use crate::decks::is_yard;
use crate::games::{
    game_played, is_order, opening, reordered, rounds_played, shuffle_outcome, winner, Deal,
    GameRecord, RoundRecord, Rounds,
};
use crate::laws::{lemma_opening, lemma_rounds};
use crate::players::{discarded, drawn, drawn_from, land_played, untapped, Player, Step, Table};
use crate::report::{
    blank_report, lemma_report_adds_up, report_on, run_deals, run_game, totals_fit, with_game,
    Report,
};
use crate::seen::{lemma_listing, listing};
use crate::spells::spells_cast;
use crate::text::{text_before, Text};
use crate::turns::{draw_log, header, specials, turn_taken, Turn, TurnPhase, TurnRecord};
use crate::yard::{mana_activated, priority_cast};
use vstd::prelude::*;

verus! {

// ---------------------------------------------------------------------------
// Turns
// ---------------------------------------------------------------------------

/// A turn that is over with its draw.
pub proof fn lemma_turn_ends_with_the_draw(table: Table, library: Seq<Text>, db: Cards, yard: bool)
    ensures
        ({
            let start = untapped(table.active);
            let (active, stock, line) = if yard {
                drawn_from(start, library)
            } else {
                (drawn(start).0, library, drawn(start).1)
            };
            active.life <= 0 ==> turn_taken(table, library, db, yard) == Some(
                Turn {
                    table: Table { active, ..table },
                    library: stock,
                    record: TurnRecord {
                        player_name: active.name,
                        life_before: table.active.life,
                        life_after: active.life,
                        hand_before: table.active.hand.len(),
                        hand_after: active.hand.len(),
                        battlefield_before: table.active.battlefield.len(),
                        battlefield_after: active.battlefield.len(),
                        actions: seq![
                            "== Untap =="@,
                            "Untapped permanents and cleared summoning sickness."@,
                            "== Draw =="@,
                            line,
                        ],
                    },
                },
            )
        }),
{
    reveal(turn_taken);
    lemma_headers();
    let start = untapped(table.active);
    let line = if yard {
        drawn_from(start, library).2
    } else {
        drawn(start).1
    };
    assert(draw_log(line) =~= seq![
        "== Untap =="@,
        "Untapped permanents and cleared summoning sickness."@,
        "== Draw =="@,
        line,
    ]);
}

proof fn lemma_headers()
    ensures
        header(TurnPhase::Untap) == "== Untap =="@,
        header(TurnPhase::Draw) == "== Draw =="@,
        header(TurnPhase::Main1) == "== Main Phase 1 =="@,
        header(TurnPhase::Combat) == "== Combat =="@,
        header(TurnPhase::Main2) == "== Main Phase 2 =="@,
        header(TurnPhase::End) == "== End Step =="@,
{
    reveal_strlit("== ");
    reveal_strlit(" ==");
    reveal_strlit("Untap");
    reveal_strlit("Draw");
    reveal_strlit("Main Phase 1");
    reveal_strlit("Combat");
    reveal_strlit("Main Phase 2");
    reveal_strlit("End Step");
    reveal_strlit("== Untap ==");
    reveal_strlit("== Draw ==");
    reveal_strlit("== Main Phase 1 ==");
    reveal_strlit("== Combat ==");
    reveal_strlit("== Main Phase 2 ==");
    reveal_strlit("== End Step ==");
    assert("== "@ + "Untap"@ + " =="@ =~= "== Untap =="@);
    assert("== "@ + "Draw"@ + " =="@ =~= "== Draw =="@);
    assert("== "@ + "Main Phase 1"@ + " =="@ =~= "== Main Phase 1 =="@);
    assert("== "@ + "Combat"@ + " =="@ =~= "== Combat =="@);
    assert("== "@ + "Main Phase 2"@ + " =="@ =~= "== Main Phase 2 =="@);
    assert("== "@ + "End Step"@ + " =="@ =~= "== End Step =="@);
}

/// A turn outside the yard: a player who lives through the draw plays a land, casts
/// spells, attacks, casts spells again, and discards down to seven cards with an empty
/// pool. The log has these actions under their phases, and the record compares the player
/// with how they were before the turn.
pub proof fn lemma_turn_in_phases(
    table: Table,
    library: Seq<Text>,
    db: Cards,
    settled: Player,
    land: Option<Text>,
    main1: Step,
    combat: Step,
    main2: Step,
)
    requires
        drawn(untapped(table.active)).0.life > 0,
        land_played(drawn(untapped(table.active)).0, db) == Some((settled, land)),
        spells_cast(Table { active: settled, ..table }, db, false) == Some(main1),
        attacked(main1.table, false) == Some(combat),
        spells_cast(combat.table, db, false) == Some(main2),
    ensures
        ({
            let (last, pile, discards) = discarded(
                Player { pool: 0, ..main2.table.active },
                main2.table.graveyard,
                db,
                7,
                false,
            );
            turn_taken(table, library, db, false) matches Some(turn) && turn.table == (Table {
                active: last,
                defending: main2.table.defending,
                graveyard: pile,
            }) && turn.library == library && turn.record == (TurnRecord {
                player_name: last.name,
                life_before: table.active.life,
                life_after: last.life,
                hand_before: table.active.hand.len(),
                hand_after: last.hand.len(),
                battlefield_before: table.active.battlefield.len(),
                battlefield_after: last.battlefield.len(),
                actions: seq![
                    "== Untap =="@,
                    "Untapped permanents and cleared summoning sickness."@,
                    "== Draw =="@,
                    drawn(untapped(table.active)).1,
                    "== Main Phase 1 =="@,
                ] + (match land {
                    Some(line) => seq![line],
                    None => Seq::<Text>::empty(),
                }) + main1.log + seq!["== Combat =="@] + combat.log + seq!["== Main Phase 2 =="@]
                    + main2.log + seq!["== End Step =="@] + discards,
            })
        }),
{
    reveal(turn_taken);
    lemma_headers();
    let turn = turn_taken(table, library, db, false)->0;
    let discards = discarded(
        Player { pool: 0, ..main2.table.active },
        main2.table.graveyard,
        db,
        7,
        false,
    ).2;
    let opened = Table { active: drawn(untapped(table.active)).0, ..table };
    assert(Table { active: settled, ..opened } == Table { active: settled, ..table });
    assert(turn.record.actions =~= seq![
        "== Untap =="@,
        "Untapped permanents and cleared summoning sickness."@,
        "== Draw =="@,
        drawn(untapped(table.active)).1,
        "== Main Phase 1 =="@,
    ] + (match land {
        Some(line) => seq![line],
        None => Seq::<Text>::empty(),
    }) + main1.log + seq!["== Combat =="@] + combat.log + seq!["== Main Phase 2 =="@] + main2.log
        + seq!["== End Step =="@] + discards);
}

/// A turn in the yard: the same, from the shared library and with the shared graveyard,
/// and between the land and the spells the sacrifices and the spells that go first.
pub proof fn lemma_yard_turn_in_phases(
    table: Table,
    library: Seq<Text>,
    db: Cards,
    settled: Player,
    land: Option<Text>,
    fed: Player,
    pile: Seq<Text>,
    first: Seq<Text>,
    ready: Step,
    stock: Seq<Text>,
    main1: Step,
    combat: Step,
    main2: Step,
)
    requires
        drawn_from(untapped(table.active), library).0.life > 0,
        land_played(drawn_from(untapped(table.active), library).0, db) == Some((settled, land)),
        mana_activated(settled, table.graveyard, db) == Some((fed, pile, first)),
        priority_cast(
            Table { active: fed, defending: table.defending, graveyard: pile },
            drawn_from(untapped(table.active), library).1,
            db,
        ) == Some((ready, stock)),
        spells_cast(ready.table, db, true) == Some(main1),
        attacked(main1.table, true) == Some(combat),
        spells_cast(combat.table, db, true) == Some(main2),
    ensures
        ({
            let (last, heap, discards) = discarded(
                Player { pool: 0, ..main2.table.active },
                main2.table.graveyard,
                db,
                7,
                true,
            );
            turn_taken(table, library, db, true) matches Some(turn) && turn.table == (Table {
                active: last,
                defending: main2.table.defending,
                graveyard: heap,
            }) && turn.library == stock && turn.record == (TurnRecord {
                player_name: last.name,
                life_before: table.active.life,
                life_after: last.life,
                hand_before: table.active.hand.len(),
                hand_after: last.hand.len(),
                battlefield_before: table.active.battlefield.len(),
                battlefield_after: last.battlefield.len(),
                actions: seq![
                    "== Untap =="@,
                    "Untapped permanents and cleared summoning sickness."@,
                    "== Draw =="@,
                    drawn_from(untapped(table.active), library).2,
                    "== Main Phase 1 =="@,
                ] + (match land {
                    Some(line) => seq![line],
                    None => Seq::<Text>::empty(),
                }) + first + ready.log + main1.log + seq!["== Combat =="@] + combat.log + seq![
                    "== Main Phase 2 =="@,
                ] + main2.log + seq!["== End Step =="@] + discards,
            })
        }),
{
    reveal(turn_taken);
    lemma_headers();
    let turn = turn_taken(table, library, db, true)->0;
    let discards = discarded(
        Player { pool: 0, ..main2.table.active },
        main2.table.graveyard,
        db,
        7,
        true,
    ).2;
    let (active, rest, line) = drawn_from(untapped(table.active), library);
    let opened = Table { active: settled, ..table };
    assert(specials(opened, rest, db, true) == Some((ready.table, stock, first, ready.log))) by {
        assert(Table { active: fed, graveyard: pile, ..opened } == Table {
            active: fed,
            defending: table.defending,
            graveyard: pile,
        });
    }
    assert(turn.record.actions =~= seq![
        "== Untap =="@,
        "Untapped permanents and cleared summoning sickness."@,
        "== Draw =="@,
        line,
        "== Main Phase 1 =="@,
    ] + (match land {
        Some(text) => seq![text],
        None => Seq::<Text>::empty(),
    }) + first + ready.log + main1.log + seq!["== Combat =="@] + combat.log + seq![
        "== Main Phase 2 =="@,
    ] + main2.log + seq!["== End Step =="@] + discards);
}

/// A turn outside the yard is out of range where one of its phases is.
pub proof fn lemma_turn_out_of_range(table: Table, library: Seq<Text>, db: Cards)
    requires
        drawn(untapped(table.active)).0.life > 0,
    ensures
        ({
            let player = drawn(untapped(table.active)).0;
            let turn = turn_taken(table, library, db, false);
            match land_played(player, db) {
                None => turn is None,
                Some((settled, _)) => match spells_cast(
                    Table { active: settled, ..table },
                    db,
                    false,
                ) {
                    None => turn is None,
                    Some(main1) => match attacked(main1.table, false) {
                        None => turn is None,
                        Some(combat) => turn is None <==> spells_cast(combat.table, db, false)
                            is None,
                    },
                },
            }
        }),
{
    reveal(turn_taken);
    let opened = Table { active: drawn(untapped(table.active)).0, ..table };
    if let Some((settled, _)) = land_played(opened.active, db) {
        assert(Table { active: settled, ..opened } == Table { active: settled, ..table });
    }
}

// ---------------------------------------------------------------------------
// Rounds
// ---------------------------------------------------------------------------

/// With no rounds left to play, the players stay as they are.
pub proof fn lemma_no_more_rounds(
    first: Player,
    second: Player,
    library: Seq<Text>,
    graveyard: Seq<Text>,
    db: Cards,
    yard: bool,
    max: nat,
)
    ensures
        rounds_played(first, second, library, graveyard, db, yard, max + 1, max) == Some(
            Rounds { turns: max, first, second, log: Seq::<RoundRecord>::empty() },
        ),
{
}

/// A round starts with a turn of the first player. Where that kills the second, the game
/// is over. Otherwise the second player has a turn, with what the first one left; where
/// that kills the first, the game is over, and otherwise the next round follows.
pub proof fn lemma_round(
    first: Player,
    second: Player,
    library: Seq<Text>,
    graveyard: Seq<Text>,
    db: Cards,
    yard: bool,
    turn: nat,
    max: nat,
    one: Turn,
)
    requires
        turn <= max,
        turn_taken(Table { active: first, defending: second, graveyard }, library, db, yard)
            == Some(one),
    ensures
        one.table.defending.life <= 0 ==> rounds_played(
            first,
            second,
            library,
            graveyard,
            db,
            yard,
            turn,
            max,
        ) == Some(
            Rounds {
                turns: turn,
                first: one.table.active,
                second: one.table.defending,
                log: seq![RoundRecord { turn, player1: one.record, player2: None }],
            },
        ),
        one.table.defending.life > 0 ==> (turn_taken(
            Table {
                active: one.table.defending,
                defending: one.table.active,
                graveyard: one.table.graveyard,
            },
            one.library,
            db,
            yard,
        ) matches Some(two) ==> {
            let record = RoundRecord { turn, player1: one.record, player2: Some(two.record) };
            rounds_played(first, second, library, graveyard, db, yard, turn, max)
                == if two.table.defending.life <= 0 {
                Some(
                    Rounds {
                        turns: turn,
                        first: two.table.defending,
                        second: two.table.active,
                        log: seq![record],
                    },
                )
            } else {
                match rounds_played(
                    two.table.defending,
                    two.table.active,
                    two.library,
                    two.table.graveyard,
                    db,
                    yard,
                    turn + 1,
                    max,
                ) {
                    None => None::<Rounds>,
                    Some(rest) => Some(
                        Rounds {
                            turns: rest.turns,
                            first: rest.first,
                            second: rest.second,
                            log: seq![record] + rest.log,
                        },
                    ),
                }
            }
        }),
{
}

// ---------------------------------------------------------------------------
// The winner
// ---------------------------------------------------------------------------

/// Who wins is settled by the players' life alone: of two players who live, the one with
/// more; of a living and a dead one, the living; and otherwise nobody.
pub proof fn lemma_winner_by_life(first: Player, second: Player)
    ensures
        first.life > second.life && second.life > 0 ==> winner(first, second) == first.name,
        second.life > first.life && first.life > 0 ==> winner(first, second) == second.name,
        first.life > 0 && second.life <= 0 ==> winner(first, second) == first.name,
        second.life > 0 && first.life <= 0 ==> winner(first, second) == second.name,
        first.life == second.life ==> winner(first, second) == "Draw"@,
        first.life <= 0 && second.life <= 0 ==> winner(first, second) == "Draw"@,
{
}

/// Nothing but their names and their life counts for who wins.
pub proof fn lemma_only_life_counts(a: Player, b: Player, c: Player, d: Player)
    requires
        a.name == c.name,
        a.life == c.life,
        b.name == d.name,
        b.life == d.life,
    ensures
        winner(a, b) == winner(c, d),
{
}

/// The winner of a game is the player with more life at its end, if one of them lives and
/// they differ, and otherwise the game is a draw.
pub proof fn lemma_winner_of_a_game(
    number: nat,
    first: Player,
    second: Player,
    library: Seq<Text>,
    db: Cards,
    max: nat,
    yard: bool,
)
    ensures
        game_played(number, first, second, library, db, max, yard) matches Some(game) ==> {
            let p = game.player1_life;
            let q = game.player2_life;
            &&& game.number == number
            &&& p > q && p > 0 ==> game.winner == first.name
            &&& q > p && q > 0 ==> game.winner == second.name
            &&& p == q || (p <= 0 && q <= 0) ==> game.winner == "Draw"@
        },
{
    lemma_opening(7, first, second, library, yard);
    let (one, two, stock) = opening(7, first, second, library, yard);
    lemma_rounds(one, two, stock, Seq::empty(), db, yard, 1, max);
}

/// The opening draws go round by round: the first player draws, then the second, from the
/// shared library in the yard and from their own elsewhere.
pub proof fn lemma_opening_round(
    n: nat,
    first: Player,
    second: Player,
    library: Seq<Text>,
    yard: bool,
)
    ensures
        opening(0, first, second, library, yard) == (first, second, library),
        yard ==> opening(n + 1, first, second, library, true) == opening(
            n,
            drawn_from(first, library).0,
            drawn_from(second, drawn_from(first, library).1).0,
            drawn_from(second, drawn_from(first, library).1).1,
            true,
        ),
        !yard ==> opening(n + 1, first, second, library, false) == opening(
            n,
            drawn(first).0,
            drawn(second).0,
            library,
            false,
        ),
{
}

/// The listing of a finite set has each member once, in the order of texts.
pub proof fn lemma_listed(set: Set<Text>)
    requires
        set.finite(),
    ensures
        forall|card: Text| #[trigger] listing(set).contains(card) <==> set.contains(card),
        forall|p: int, q: int|
            0 <= p < q < listing(set).len() ==> text_before(
                #[trigger] listing(set)[p],
                #[trigger] listing(set)[q],
            ),
{
    lemma_listing(set);
}

/// A game is dealt by seven draws of each player in turn and played from round 1; its
/// record has the life of the first player first, and the cards that each has seen.
pub proof fn lemma_course_of_a_game(
    number: nat,
    first: Player,
    second: Player,
    library: Seq<Text>,
    db: Cards,
    max: nat,
    yard: bool,
)
    ensures
        ({
            let (one, two, stock) = opening(7, first, second, library, yard);
            match rounds_played(one, two, stock, Seq::empty(), db, yard, 1, max) {
                None => game_played(number, first, second, library, db, max, yard) is None,
                Some(rounds) => game_played(number, first, second, library, db, max, yard)
                    matches Some(game) && game.turns == rounds.turns && game.player1_life
                    == rounds.first.life && game.player2_life == rounds.second.life && game.log
                    == rounds.log && game.player1_cards_seen == listing(rounds.first.seen)
                    && game.player2_cards_seen == listing(rounds.second.seen),
            }
        }),
{
}

// ---------------------------------------------------------------------------
// Shuffling
// ---------------------------------------------------------------------------

/// A row in another order holds the same entries, each as often as before.
pub proof fn lemma_shuffling_keeps_the_cards(row: Seq<Text>, order: Seq<int>)
    requires
        is_order(order, row.len()),
    ensures
        reordered(row, order).len() == row.len(),
        forall|i: int| 0 <= i < row.len() ==> #[trigger] reordered(row, order)[i] == row[order[i]],
        forall|k: int| 0 <= k < row.len() ==> order.contains(k),
{
    assert(order.no_duplicates());
    order.unique_seq_to_set();
    let all = vstd::set_lib::set_int_range(0, row.len() as int);
    vstd::set_lib::lemma_int_range(0, row.len() as int);
    assert(order.to_set().subset_of(all)) by {
        assert forall|k: int| #[trigger] order.to_set().contains(k) implies all.contains(k) by {
            let i = choose|i: int| 0 <= i < order.len() && order[i] == k;
            assert(0 <= order[i] < row.len());
        }
    }
    vstd::set_lib::lemma_subset_equality(order.to_set(), all);
    assert forall|k: int| 0 <= k < row.len() implies order.contains(k) by {
        assert(all.contains(k));
        assert(order.to_set().contains(k));
    }
}

// ---------------------------------------------------------------------------
// Runs
// ---------------------------------------------------------------------------

/// A game of a run is between the configured players, with the configured life or 20, in
/// at most the configured number of rounds or 30. Each plays their own deck in the order
/// of the deal and starts without lands; in the yard they share the first deck and start
/// with a land each.
pub proof fn lemma_game_of_a_run(
    cfg: RunConfig,
    deck1: Seq<Text>,
    deck2: Seq<Text>,
    db: Cards,
    k: nat,
    deal: Deal,
)
    ensures
        ({
            let yard = is_yard(cfg.format@);
            let max = match cfg.max_turns {
                Some(limit) => limit as nat,
                None => 30,
            };
            let one = Player {
                name: cfg.player1.name@,
                life: match cfg.player1.starting_life {
                    Some(life) => life as int,
                    None => 20,
                },
                library: if yard {
                    Seq::empty()
                } else {
                    reordered(deck1, deal.first)
                },
                hand: Seq::empty(),
                battlefield: Seq::empty(),
                graveyard: Seq::empty(),
                lands: if yard {
                    1
                } else {
                    0
                },
                pool: 0,
                seen: Set::empty(),
            };
            let two = Player {
                name: cfg.player2.name@,
                life: match cfg.player2.starting_life {
                    Some(life) => life as int,
                    None => 20,
                },
                library: if yard {
                    Seq::empty()
                } else {
                    reordered(deck2, deal.second)
                },
                ..one
            };
            let shared = if yard {
                reordered(deck1, deal.first)
            } else {
                Seq::empty()
            };
            run_game(cfg, deck1, deck2, db, k, deal) == game_played(
                k + 1,
                one,
                two,
                shared,
                db,
                max,
                yard,
            )
        }),
{
}

/// The decks of a run are shuffled one after the other: the first player's, then the
/// second's, then those of the next game; in the yard only the first. The generator
/// starts from the configured seed, or from 42.
pub proof fn lemma_deals_of_a_run(cfg: RunConfig, size1: nat, size2: nat, state: Seq<u64>, n: nat)
    ensures
        run_deals(cfg, size1, size2, state, 0).len() == 0,
        first_seed(cfg) == match cfg.seed {
            Some(seed) => seed,
            None => 42,
        },
        ({
            let before = run_deals(cfg, size1, size2, state, n);
            let now = if n == 0 {
                state
            } else {
                before.last().state
            };
            let (first, middle) = shuffle_outcome(now, size1);
            let (second, last) = shuffle_outcome(middle, size2);
            let deal = if is_yard(cfg.format@) {
                Deal { first, second: Seq::empty(), state: middle }
            } else {
                Deal { first, second, state: last }
            };
            &&& before.len() == n
            &&& run_deals(cfg, size1, size2, state, n + 1) == before + seq![deal]
        }),
    decreases n,
{
    if n > 0 {
        lemma_deals_of_a_run(cfg, size1, size2, state, (n - 1) as nat);
    }
    let before = run_deals(cfg, size1, size2, state, n);
    let after = run_deals(cfg, size1, size2, state, n + 1);
    assert(after =~= before + seq![after.last()]);
}

// ---------------------------------------------------------------------------
// Reports
// ---------------------------------------------------------------------------

/// A player has as many wins in a report as there are games in it with their name as the
/// winner, and there are as many draws as games with neither name.
pub proof fn lemma_wins_are_games(
    cfg: RunConfig,
    deck1: Seq<Text>,
    deck2: Seq<Text>,
    db: Cards,
    deals: Seq<Deal>,
)
    ensures
        report_on(cfg, deck1, deck2, db, deals) matches Some(report) ==> {
            let one = cfg.player1.name@;
            let two = cfg.player2.name@;
            &&& report.player1_wins == report.games.filter(
                |game: GameRecord| game.winner == one,
            ).len()
            &&& report.player2_wins == report.games.filter(
                |game: GameRecord| game.winner == two && two != one,
            ).len()
            &&& report.draws == report.games.filter(
                |game: GameRecord| game.winner != one && game.winner != two,
            ).len()
            &&& report.turns_total == report.games.map_values(
                |game: GameRecord| game.turns as int,
            ).fold_left(0, |sum: int, n: int| sum + n)
            &&& report.player1_life_total == report.games.map_values(
                |game: GameRecord| game.player1_life,
            ).fold_left(0, |sum: int, n: int| sum + n)
            &&& report.player2_life_total == report.games.map_values(
                |game: GameRecord| game.player2_life,
            ).fold_left(0, |sum: int, n: int| sum + n)
        },
    decreases deals.len(),
{
    reveal(Seq::filter);
    lemma_report_adds_up(cfg, deck1, deck2, db, deals);
    if deals.len() > 0 {
        lemma_wins_are_games(cfg, deck1, deck2, db, deals.drop_last());
        lemma_report_adds_up(cfg, deck1, deck2, db, deals.drop_last());
        if let Some(report) = report_on(cfg, deck1, deck2, db, deals) {
            let before = report_on(cfg, deck1, deck2, db, deals.drop_last())->0;
            assert(report.games.drop_last() =~= before.games);
            assert(report.games.map_values(|game: GameRecord| game.turns as int).drop_last()
                =~= before.games.map_values(|game: GameRecord| game.turns as int));
            assert(report.games.map_values(|game: GameRecord| game.player1_life).drop_last()
                =~= before.games.map_values(|game: GameRecord| game.player1_life));
            assert(report.games.map_values(|game: GameRecord| game.player2_life).drop_last()
                =~= before.games.map_values(|game: GameRecord| game.player2_life));
        }
    } else {
        let report = blank_report(cfg);
        assert(report.games.len() == 0);
    }
}

/// A game adds its turns and the players' life to the totals of a report, stands last in
/// it, and counts for the player who won it, or as a draw.
pub proof fn lemma_recorded_game(report: Report, game: GameRecord)
    ensures
        ({
            let after = with_game(report, game);
            &&& after.games == report.games + seq![game]
            &&& after.ending_turns == report.ending_turns + seq![game.turns]
            &&& after.turns_total - report.turns_total == game.turns
            &&& after.player1_life_total - report.player1_life_total == game.player1_life
            &&& after.player2_life_total - report.player2_life_total == game.player2_life
            &&& after.format == report.format && after.iterations == report.iterations
            &&& after.player1_name == report.player1_name
            &&& after.player2_name == report.player2_name
            &&& game.winner == report.player1_name ==> after.player1_wins == report.player1_wins + 1
                && after.player2_wins == report.player2_wins && after.draws == report.draws
            &&& game.winner == report.player2_name && report.player1_name != report.player2_name
                ==> after.player1_wins == report.player1_wins && after.player2_wins
                == report.player2_wins + 1 && after.draws == report.draws
            &&& game.winner != report.player1_name && game.winner != report.player2_name
                ==> after.player1_wins == report.player1_wins && after.player2_wins
                == report.player2_wins && after.draws == report.draws + 1
        }),
        totals_fit(report) <==> i64::MIN <= report.player1_life_total <= i64::MAX && i64::MIN
            <= report.player2_life_total <= i64::MAX && report.turns_total <= usize::MAX
            && report.player1_wins <= usize::MAX && report.player2_wins <= usize::MAX
            && report.draws <= usize::MAX,
{
    assert(with_game(report, game).games =~= report.games + seq![game]);
    assert(with_game(report, game).ending_turns =~= report.ending_turns + seq![game.turns]);
}

/// A game can be added to a report exactly if it could be played and the totals stay in
/// their ranges.
pub proof fn lemma_report_grows(
    cfg: RunConfig,
    deck1: Seq<Text>,
    deck2: Seq<Text>,
    db: Cards,
    deals: Seq<Deal>,
    deal: Deal,
)
    ensures
        report_on(cfg, deck1, deck2, db, Seq::empty()) matches Some(blank) && blank.games.len()
            == 0,
        report_on(cfg, deck1, deck2, db, deals) is None ==> report_on(
            cfg,
            deck1,
            deck2,
            db,
            deals + seq![deal],
        ) is None,
        run_game(cfg, deck1, deck2, db, deals.len(), deal) is None ==> report_on(
            cfg,
            deck1,
            deck2,
            db,
            deals + seq![deal],
        ) is None,
        report_on(cfg, deck1, deck2, db, deals) matches Some(report) ==> (run_game(
            cfg,
            deck1,
            deck2,
            db,
            deals.len(),
            deal,
        ) matches Some(game) ==> deals.len() < usize::MAX ==> (report_on(
            cfg,
            deck1,
            deck2,
            db,
            deals + seq![deal],
        ) is Some <==> {
            &&& i64::MIN <= report.player1_life_total + game.player1_life <= i64::MAX
            &&& i64::MIN <= report.player2_life_total + game.player2_life <= i64::MAX
            &&& report.turns_total + game.turns <= usize::MAX
        })),
{
    let all = deals + seq![deal];
    assert(all.drop_last() =~= deals);
    assert(all.last() == deal);
    lemma_report_adds_up(cfg, deck1, deck2, db, deals);
}

// ---------------------------------------------------------------------------
// Downloads
// ---------------------------------------------------------------------------

/// Of a list of downloads the first of Oracle cards is taken, and none where there is none.
pub proof fn lemma_first_oracle_download(
    before: Seq<ScryfallBulkItem>,
    item: ScryfallBulkItem,
    after: Seq<ScryfallBulkItem>,
)
    requires
        forall|i: int|
            0 <= i < before.len() ==> (#[trigger] before[i]).data_type@ != "oracle_cards"@,
    ensures
        oracle_cards(before) is None,
        item.data_type@ == "oracle_cards"@ ==> oracle_cards(before + seq![item] + after) == Some(
            item.download_uri@,
        ),
    decreases before.len(),
{
    let all = before + seq![item] + after;
    if before.len() > 0 {
        let rest = before.drop_first();
        assert forall|i: int| 0 <= i < rest.len() implies (#[trigger] rest[i]).data_type@
            != "oracle_cards"@ by {
            assert(rest[i] == before[i + 1]);
        }
        lemma_first_oracle_download(rest, item, after);
        assert(all[0] == before[0]);
        assert(all.drop_first() =~= rest + seq![item] + after);
    } else {
        assert(all[0] == item);
    }
}

} // verus!
