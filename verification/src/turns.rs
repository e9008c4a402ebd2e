//! Turns: the phases and what is logged of them.

use crate::cards::{card_names, CardDb, Cards, DeckCard};
use crate::combat::{attack_step, attack_step_yard, attacked};
use crate::players::{
    discard_down_to_hand_size, discard_down_to_hand_size_yard, discarded, draw_card,
    draw_card_from_shared, drawn, drawn_from, land_played, lemma_plain_discard_keeps_graveyard,
    play_land, untap, untapped, OutOfRange, Player, PlayerState, Step, Table,
};
use crate::seen::{append_all, push_line, texts};
use crate::spells::{cast_spells, cast_spells_yard, spells_cast};
use crate::text::Text;
use crate::yard::{
    activate_mana_abilities_yard, cast_priority_spells_yard, mana_activated, priority_cast,
};
use vstd::prelude::*;

verus! {

/// The hand size to which a player discards at the end of a turn.
pub const MAX_HAND_SIZE: usize = 7;

/// A phase of a turn.
#[derive(Debug, Clone, Copy, PartialEq, Eq, Structural)]
pub enum TurnPhase {
    Untap,
    Draw,
    Main1,
    Combat,
    Main2,
    End,
}

/// The name of a phase.
pub open spec fn phase_label(phase: TurnPhase) -> Text {
    match phase {
        TurnPhase::Untap => "Untap"@,
        TurnPhase::Draw => "Draw"@,
        TurnPhase::Main1 => "Main Phase 1"@,
        TurnPhase::Combat => "Combat"@,
        TurnPhase::Main2 => "Main Phase 2"@,
        TurnPhase::End => "End Step"@,
    }
}

/// The log line that opens a phase.
pub open spec fn header(phase: TurnPhase) -> Text {
    "== "@ + phase_label(phase) + " =="@
}

impl TurnPhase {
    /// The name of the phase.
    pub fn label(self) -> (name: &'static str)
        ensures
            name@ == phase_label(self),
    {
        match self {
            TurnPhase::Untap => "Untap",
            TurnPhase::Draw => "Draw",
            TurnPhase::Main1 => "Main Phase 1",
            TurnPhase::Combat => "Combat",
            TurnPhase::Main2 => "Main Phase 2",
            TurnPhase::End => "End Step",
        }
    }
}

fn header_action(phase: TurnPhase) -> (action: String)
    ensures
        action@ == header(phase),
{
    let mut action = "== ".to_string();
    action.append(phase.label());
    action.append(" ==");
    action
}

/// What is logged of a turn of a player.
#[derive(Debug)]
pub struct PlayerTurnLog {
    pub player_name: String,
    pub life_before: i32,
    pub life_after: i32,
    pub hand_before: usize,
    pub hand_after: usize,
    pub battlefield_before: usize,
    pub battlefield_after: usize,
    pub actions: Vec<String>,
}

/// The model of a `PlayerTurnLog`.
#[verifier::ext_equal]
pub struct TurnRecord {
    pub player_name: Text,
    pub life_before: int,
    pub life_after: int,
    pub hand_before: nat,
    pub hand_after: nat,
    pub battlefield_before: nat,
    pub battlefield_after: nat,
    pub actions: Seq<Text>,
}

impl View for PlayerTurnLog {
    type V = TurnRecord;

    open spec fn view(&self) -> TurnRecord {
        TurnRecord {
            player_name: self.player_name@,
            life_before: self.life_before as int,
            life_after: self.life_after as int,
            hand_before: self.hand_before as nat,
            hand_after: self.hand_after as nat,
            battlefield_before: self.battlefield_before as nat,
            battlefield_after: self.battlefield_after as nat,
            actions: texts(self.actions@),
        }
    }
}

/// The record of a turn that led a player from `before` to `after`.
pub open spec fn recorded(before: Player, after: Player, actions: Seq<Text>) -> TurnRecord {
    TurnRecord {
        player_name: after.name,
        life_before: before.life,
        life_after: after.life,
        hand_before: before.hand.len(),
        hand_after: after.hand.len(),
        battlefield_before: before.battlefield.len(),
        battlefield_after: after.battlefield.len(),
        actions,
    }
}

/// The table and the shared library after a turn, and its record.
#[verifier::ext_equal]
pub struct Turn {
    pub table: Table,
    pub library: Seq<Text>,
    pub record: TurnRecord,
}

/// The lines of an optional line.
pub open spec fn optional_line(line: Option<Text>) -> Seq<Text> {
    match line {
        Some(text) => seq![text],
        None => Seq::empty(),
    }
}

/// What comes between the land and the spells of the first main phase: nothing,
/// but in the yard format the sacrifices and the spells that go first. Gives the
/// table, the shared library and the two logs.
pub open spec fn specials(table: Table, library: Seq<Text>, db: Cards, yard: bool) -> Option<
    (Table, Seq<Text>, Seq<Text>, Seq<Text>),
> {
    if !yard {
        Some((table, library, Seq::empty(), Seq::empty()))
    } else {
        match mana_activated(table.active, table.graveyard, db) {
            None => None,
            Some((active, graveyard, first)) => match priority_cast(
                Table { active, graveyard, ..table },
                library,
                db,
            ) {
                None => None,
                Some((step, stock)) => Some((step.table, stock, first, step.log)),
            },
        }
    }
}

/// The phases of a turn after the draw, where `log` was logged before them.
pub open spec fn phases_played(
    table: Table,
    library: Seq<Text>,
    db: Cards,
    yard: bool,
    log: Seq<Text>,
) -> Option<(Step, Seq<Text>)> {
    match land_played(table.active, db) {
        None => None,
        Some((settled, line)) => match specials(
            Table { active: settled, ..table },
            library,
            db,
            yard,
        ) {
            None => None,
            Some((ready, stock, first, second)) => match spells_cast(ready, db, yard) {
                None => None,
                Some(main1) => match attacked(main1.table, yard) {
                    None => None,
                    Some(combat) => match spells_cast(combat.table, db, yard) {
                        None => None,
                        Some(main2) => {
                            let (last, graveyard, discards) = discarded(
                                Player { pool: 0, ..main2.table.active },
                                main2.table.graveyard,
                                db,
                                MAX_HAND_SIZE as nat,
                                yard,
                            );
                            Some(
                                (
                                    Step {
                                        table: Table { active: last, graveyard, ..main2.table },
                                        log: log + seq![header(TurnPhase::Main1)] + optional_line(
                                            line,
                                        ) + first + second + main1.log + seq![
                                            header(TurnPhase::Combat),
                                        ] + combat.log + seq![header(TurnPhase::Main2)] + main2.log
                                            + seq![header(TurnPhase::End)] + discards,
                                    },
                                    stock,
                                ),
                            )
                        },
                    },
                },
            },
        },
    }
}

/// The draw of a turn: the player, the shared library and the log line.
pub open spec fn turn_draw(player: Player, library: Seq<Text>, yard: bool) -> (
    Player,
    Seq<Text>,
    Text,
) {
    if yard {
        drawn_from(player, library)
    } else {
        (drawn(player).0, library, drawn(player).1)
    }
}

/// What is logged of a turn up to its draw, where `line` is that of the draw.
pub open spec fn draw_log(line: Text) -> Seq<Text> {
    seq![
        header(TurnPhase::Untap),
        "Untapped permanents and cleared summoning sickness."@,
        header(TurnPhase::Draw),
        line,
    ]
}

/// A turn of the active player. It ends with the draw if that leaves the player
/// without life. `None` where life, lands or mana leave their range.
#[verifier::opaque]
pub open spec fn turn_taken(table: Table, library: Seq<Text>, db: Cards, yard: bool) -> Option<
    Turn,
> {
    let (active, stock, line) = turn_draw(untapped(table.active), library, yard);
    let opened = Table { active, ..table };
    let log = draw_log(line);
    if active.life <= 0 {
        Some(
            Turn {
                table: opened,
                library: stock,
                record: recorded(table.active, active, log),
            },
        )
    } else {
        match phases_played(opened, stock, db, yard, log) {
            None => None,
            Some((step, rest)) => Some(
                Turn {
                    table: step.table,
                    library: rest,
                    record: recorded(table.active, step.table.active, step.log),
                },
            ),
        }
    }
}

/// Whether a function that returned `log` and left `table` and `library` behind
/// has played `turn`.
pub open spec fn is_turn(
    log: Result<PlayerTurnLog, OutOfRange>,
    table: Table,
    library: Seq<Text>,
    turn: Option<Turn>,
) -> bool {
    match turn {
        Some(done) => {
            &&& log is Ok
            &&& log->Ok_0@ == done.record
            &&& table == done.table
            &&& library == done.library
        },
        None => log is Err,
    }
}

fn turn_log(
    player: &PlayerState,
    life_before: i32,
    hand_before: usize,
    battlefield_before: usize,
    actions: Vec<String>,
) -> (log: PlayerTurnLog)
    ensures
        log@ == (TurnRecord {
            player_name: player@.name,
            life_before: life_before as int,
            life_after: player@.life,
            hand_before: hand_before as nat,
            hand_after: player@.hand.len(),
            battlefield_before: battlefield_before as nat,
            battlefield_after: player@.battlefield.len(),
            actions: texts(actions@),
        }),
{
    PlayerTurnLog {
        player_name: player.name.clone(),
        life_before,
        life_after: player.life,
        hand_before,
        hand_after: player.hand.len(),
        battlefield_before,
        battlefield_after: player.battlefield.len(),
        actions,
    }
}

/// Plays a turn of the active player.
pub fn take_turn(
    active: &mut PlayerState,
    defending: &mut PlayerState,
    card_db: &CardDb,
) -> (log: Result<PlayerTurnLog, OutOfRange>)
    ensures
        is_turn(
            log,
            Table { active: final(active)@, defending: final(defending)@, graveyard: Seq::empty() },
            Seq::empty(),
            turn_taken(
                Table { active: old(active)@, defending: old(defending)@, graveyard: Seq::empty() },
                Seq::empty(),
                card_db@,
                false,
            ),
        ),
{
    proof {
        reveal(turn_taken);
    }
    let mut actions: Vec<String> = Vec::new();
    let life_before = active.life;
    let hand_before = active.hand.len();
    let battlefield_before = active.battlefield.len();
    assert(texts(actions@) =~= Seq::<Text>::empty());

    push_line(&mut actions, header_action(TurnPhase::Untap));
    untap(active);
    push_line(
        &mut actions,
        "Untapped permanents and cleared summoning sickness.".to_string(),
    );
    push_line(&mut actions, header_action(TurnPhase::Draw));
    let draw = draw_card(active);
    let ghost line = draw@;
    push_line(&mut actions, draw);
    assert(texts(actions@) =~= draw_log(line));
    if active.life <= 0 {
        return Ok(
            turn_log(active, life_before, hand_before, battlefield_before, actions),
        );
    }
    push_line(&mut actions, header_action(TurnPhase::Main1));
    match play_land(active, card_db) {
        Ok(Some(action)) => {
            push_line(&mut actions, action);
        },
        Ok(None) => {
            assert(texts(actions@) + Seq::<Text>::empty() =~= texts(actions@));
        },
        Err(error) => {
            return Err(error);
        },
    }
    proof {
        assert(texts(actions@) + Seq::<Text>::empty() + Seq::<Text>::empty() =~= texts(actions@));
    }
    match cast_spells(active, defending, card_db) {
        Ok(lines) => {
            let mut lines = lines;
            append_all(&mut actions, &mut lines);
        },
        Err(error) => {
            return Err(error);
        },
    }

    push_line(&mut actions, header_action(TurnPhase::Combat));
    match attack_step(active, defending) {
        Ok(lines) => {
            let mut lines = lines;
            append_all(&mut actions, &mut lines);
        },
        Err(error) => {
            return Err(error);
        },
    }

    push_line(&mut actions, header_action(TurnPhase::Main2));
    match cast_spells(active, defending, card_db) {
        Ok(lines) => {
            let mut lines = lines;
            append_all(&mut actions, &mut lines);
        },
        Err(error) => {
            return Err(error);
        },
    }

    push_line(&mut actions, header_action(TurnPhase::End));
    active.mana_pool = 0;
    proof {
        lemma_plain_discard_keeps_graveyard(
            active@,
            Seq::empty(),
            card_db@,
            MAX_HAND_SIZE as nat,
        );
    }
    let mut discards = discard_down_to_hand_size(active, card_db, MAX_HAND_SIZE);
    append_all(&mut actions, &mut discards);
    Ok(turn_log(active, life_before, hand_before, battlefield_before, actions))
}

/// Plays a turn of the active player in the yard format.
pub fn take_turn_yard(
    active: &mut PlayerState,
    defending: &mut PlayerState,
    card_db: &CardDb,
    shared_library: &mut Vec<DeckCard>,
    shared_graveyard: &mut Vec<DeckCard>,
) -> (log: Result<PlayerTurnLog, OutOfRange>)
    ensures
        is_turn(
            log,
            Table {
                active: final(active)@,
                defending: final(defending)@,
                graveyard: card_names(final(shared_graveyard)@),
            },
            card_names(final(shared_library)@),
            turn_taken(
                Table {
                    active: old(active)@,
                    defending: old(defending)@,
                    graveyard: card_names(old(shared_graveyard)@),
                },
                card_names(old(shared_library)@),
                card_db@,
                true,
            ),
        ),
{
    proof {
        reveal(turn_taken);
    }
    let mut actions: Vec<String> = Vec::new();
    let life_before = active.life;
    let hand_before = active.hand.len();
    let battlefield_before = active.battlefield.len();
    assert(texts(actions@) =~= Seq::<Text>::empty());

    push_line(&mut actions, header_action(TurnPhase::Untap));
    untap(active);
    push_line(
        &mut actions,
        "Untapped permanents and cleared summoning sickness.".to_string(),
    );
    push_line(&mut actions, header_action(TurnPhase::Draw));
    let draw = draw_card_from_shared(active, shared_library);
    let ghost line = draw@;
    push_line(&mut actions, draw);
    assert(texts(actions@) =~= draw_log(line));
    if active.life <= 0 {
        return Ok(
            turn_log(active, life_before, hand_before, battlefield_before, actions),
        );
    }
    push_line(&mut actions, header_action(TurnPhase::Main1));
    match play_land(active, card_db) {
        Ok(Some(action)) => {
            push_line(&mut actions, action);
        },
        Ok(None) => {
            assert(texts(actions@) + Seq::<Text>::empty() =~= texts(actions@));
        },
        Err(error) => {
            return Err(error);
        },
    }
    match activate_mana_abilities_yard(active, card_db, shared_graveyard) {
        Ok(lines) => {
            let mut lines = lines;
            append_all(&mut actions, &mut lines);
        },
        Err(error) => {
            return Err(error);
        },
    }
    match cast_priority_spells_yard(
        active,
        defending,
        card_db,
        shared_library,
        shared_graveyard,
    ) {
        Ok(lines) => {
            let mut lines = lines;
            append_all(&mut actions, &mut lines);
        },
        Err(error) => {
            return Err(error);
        },
    }
    match cast_spells_yard(active, defending, card_db, shared_graveyard) {
        Ok(lines) => {
            let mut lines = lines;
            append_all(&mut actions, &mut lines);
        },
        Err(error) => {
            return Err(error);
        },
    }

    push_line(&mut actions, header_action(TurnPhase::Combat));
    match attack_step_yard(active, defending, shared_graveyard) {
        Ok(lines) => {
            let mut lines = lines;
            append_all(&mut actions, &mut lines);
        },
        Err(error) => {
            return Err(error);
        },
    }

    push_line(&mut actions, header_action(TurnPhase::Main2));
    match cast_spells_yard(active, defending, card_db, shared_graveyard) {
        Ok(lines) => {
            let mut lines = lines;
            append_all(&mut actions, &mut lines);
        },
        Err(error) => {
            return Err(error);
        },
    }

    push_line(&mut actions, header_action(TurnPhase::End));
    active.mana_pool = 0;
    let mut discards = discard_down_to_hand_size_yard(
        active,
        card_db,
        shared_graveyard,
        MAX_HAND_SIZE,
    );
    append_all(&mut actions, &mut discards);
    Ok(turn_log(active, life_before, hand_before, battlefield_before, actions))
}

} // verus!
