//! What the models keep of the values that they stand for, and what the contracts say
//! with them.

use crate::cards::{card_names, CardProfile, DeckCard};
use crate::games::{is_game, round_records, GameRecord, GameResult, TurnLog};
use crate::players::{creatures, is_step, CreaturePermanent, OutOfRange, PlayerState, Step, Table};
use crate::report::SimulationReport;
use crate::seen::texts;
use crate::spells::{is_change, items, StackItem};
use crate::text::Text;
use crate::turns::{is_turn, PlayerTurnLog, Turn};
use vstd::prelude::*;

verus! {

/// Cards, creatures, spells and lines are modelled one by one, in their order.
pub proof fn lemma_rows(
    cards: Seq<DeckCard>,
    row: Seq<CreaturePermanent>,
    stack: Seq<StackItem>,
    lines: Seq<String>,
    logs: Seq<TurnLog>,
)
    ensures
        card_names(cards).len() == cards.len(),
        forall|i: int| 0 <= i < cards.len() ==> #[trigger] card_names(cards)[i] == cards[i].name@,
        creatures(row).len() == row.len(),
        forall|i: int| 0 <= i < row.len() ==> #[trigger] creatures(row)[i] == row[i]@,
        items(stack).len() == stack.len(),
        forall|i: int| 0 <= i < stack.len() ==> #[trigger] items(stack)[i] == stack[i]@,
        texts(lines).len() == lines.len(),
        forall|i: int| 0 <= i < lines.len() ==> #[trigger] texts(lines)[i] == lines[i]@,
        round_records(logs).len() == logs.len(),
        forall|i: int| 0 <= i < logs.len() ==> #[trigger] round_records(logs)[i] == logs[i]@,
{
}

/// The model of a creature keeps its name, power and toughness, and whether it can attack.
pub proof fn lemma_creature_model(creature: CreaturePermanent)
    ensures
        creature@.name == creature.card_name@,
        creature@.power == creature.power,
        creature@.toughness == creature.toughness,
        creature@.sick == creature.summoning_sick,
{
}

/// The model of a profile keeps everything.
pub proof fn lemma_profile_model(profile: CardProfile)
    ensures
        profile@.name == profile.name@,
        profile@.kind == profile.kind,
        profile@.cmc == profile.cmc,
        profile@.is_basic_land == profile.is_basic_land,
        profile@.is_mono_black_legal == profile.is_mono_black_legal,
{
}

/// The model of a spell keeps its card and its profile.
pub proof fn lemma_spell_model(item: StackItem)
    ensures
        item@.card == item.card.name@,
        item@.profile == item.profile@,
{
}

/// The model of a player keeps everything.
pub proof fn lemma_player_model(player: PlayerState)
    ensures
        player@.name == player.name@,
        player@.life == player.life,
        player@.library == card_names(player.library@),
        player@.hand == card_names(player.hand@),
        player@.battlefield == creatures(player.battlefield@),
        player@.graveyard == card_names(player.graveyard@),
        player@.lands == player.lands_in_play,
        player@.pool == player.mana_pool,
        player@.seen == player.cards_seen@,
{
}

/// The model of a turn's log keeps everything.
pub proof fn lemma_turn_log_model(log: PlayerTurnLog)
    ensures
        log@.player_name == log.player_name@,
        log@.life_before == log.life_before,
        log@.life_after == log.life_after,
        log@.hand_before == log.hand_before,
        log@.hand_after == log.hand_after,
        log@.battlefield_before == log.battlefield_before,
        log@.battlefield_after == log.battlefield_after,
        log@.actions == texts(log.actions@),
{
}

/// The model of a round's log keeps everything.
pub proof fn lemma_round_log_model(log: TurnLog)
    ensures
        log@.turn == log.turn,
        log@.player1 == log.player1@,
        log.player2 is None <==> log@.player2 is None,
        log.player2 matches Some(second) ==> log@.player2 == Some(second@),
{
}

/// The model of a game's result keeps everything.
pub proof fn lemma_game_model(game: GameResult)
    ensures
        game@.number == game.game_number,
        game@.winner == game.winner@,
        game@.turns == game.turns,
        game@.player1_life == game.player1_life,
        game@.player2_life == game.player2_life,
        game@.player1_cards_seen == texts(game.player1_cards_seen@),
        game@.player2_cards_seen == texts(game.player2_cards_seen@),
        game@.log == round_records(game.turn_logs@),
{
}

/// The model of a report keeps everything.
pub proof fn lemma_report_model(report: SimulationReport)
    ensures
        report@.format == report.format@,
        report@.iterations == report.iterations,
        report@.player1_name == report.player1_name@,
        report@.player2_name == report.player2_name@,
        report@.player1_wins == report.player1_wins,
        report@.player2_wins == report.player2_wins,
        report@.draws == report.draws,
        report@.player1_life_total == report.player1_life_total,
        report@.player2_life_total == report.player2_life_total,
        report@.turns_total == report.turns_total,
        report@.ending_turns.len() == report.ending_turns@.len(),
        forall|i: int|
            0 <= i < report.ending_turns@.len() ==> #[trigger] report@.ending_turns[i]
                == report.ending_turns@[i],
        report@.games.len() == report.games@.len(),
        forall|i: int|
            0 <= i < report.games@.len() ==> #[trigger] report@.games[i] == report.games@[i]@,
{
}

/// A step was made exactly if the lines and the table are those of the step; where there
/// is none, the result is an error.
pub proof fn lemma_steps(
    actions: Result<Vec<String>, OutOfRange>,
    action: Result<String, OutOfRange>,
    table: Table,
    step: Step,
    line: Text,
)
    ensures
        is_step(actions, table, None) <==> actions is Err,
        is_step(actions, table, Some(step)) <==> actions is Ok && texts(actions->Ok_0@) == step.log
            && table == step.table,
        is_change(action, table, None) <==> action is Err,
        is_change(action, table, Some((step.table, line))) <==> action is Ok && action->Ok_0@
            == line && table == step.table,
{
}

/// A turn or a game was played exactly if the table, the library and the record are those
/// of the turn or the game; where there is none, the result is an error.
pub proof fn lemma_turns_and_games(
    log: Result<PlayerTurnLog, OutOfRange>,
    result: Result<GameResult, OutOfRange>,
    table: Table,
    library: Seq<Text>,
    turn: Turn,
    game: GameRecord,
)
    ensures
        is_turn(log, table, library, None) <==> log is Err,
        is_turn(log, table, library, Some(turn)) <==> log is Ok && log->Ok_0@ == turn.record
            && table == turn.table && library == turn.library,
        is_game(result, None) <==> result is Err,
        is_game(result, Some(game)) <==> result is Ok && result->Ok_0@ == game,
{
}

} // verus!
