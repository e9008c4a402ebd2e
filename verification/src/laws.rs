//! What holds of every turn and every game.

use crate::cards::{known, Cards};
use crate::combat::{
    attack_keys, attacked, attacker_falls, attackers, block_keys, blocker_falls, blockers,
    fallen_attackers, fallen_blockers, lemma_dead_or_alive, struck, unblocked,
};
use crate::games::{game_played, opening, rounds_played, winner, STARTING_HAND_SIZE};
use crate::players::{
    buried, discard_index, discard_keys, discarded, drawn_from, is_bridge, land_flags, land_played,
    lemma_discard_index, untapped, value_of, Creature, Player, Table,
};
use crate::ranking::{
    first_set, goes_before, is_ranking, last_greatest, lemma_first_exists, lemma_first_unset,
    lemma_last_greatest, lemma_ranking, ranking,
};
use crate::seen::{lemma_listing, listing};
use crate::spells::{
    cast_from, chosen_spell, is_affordable, is_lethal, lemma_pick, lemma_responded,
    lemma_stack_effect, lethal_flags, mana_left, monus, playable_keys, reanimate_flags, resolved,
    responded, response_flags, spells_cast, stack_resolved, taken, Item,
};
use crate::text::{lowercase, text_before, Text};
use crate::turns::{
    draw_log, phases_played, specials, turn_draw, turn_taken, MAX_HAND_SIZE,
};
use crate::yard::{
    cycled, mana_activated, named_flags, pet_flags, reanimated, target_keys, wants_mana,
};
use vstd::prelude::*;

verus! {

// ---------------------------------------------------------------------------
// What a player carries over
// ---------------------------------------------------------------------------

/// Whether a player has seen every card in their hand.
pub open spec fn hand_is_seen(player: Player) -> bool {
    forall|i: int| 0 <= i < player.hand.len() ==> player.seen.contains(#[trigger] player.hand[i])
}

/// Whether every card of a graveyard is Bridge from Below.
pub open spec fn only_bridges(graveyard: Seq<Text>) -> bool {
    forall|i: int| 0 <= i < graveyard.len() ==> is_bridge(#[trigger] graveyard[i])
}

/// What a player keeps: the name, the cards that they have seen, having seen their
/// whole hand, and, in the yard format, a graveyard of bridges only.
pub open spec fn keeps(before: Player, after: Player, yard: bool) -> bool {
    &&& after.name == before.name
    &&& before.seen.subset_of(after.seen)
    &&& before.seen.finite() ==> after.seen.finite()
    &&& hand_is_seen(before) ==> hand_is_seen(after)
    &&& yard && only_bridges(before.graveyard) ==> only_bridges(after.graveyard)
}

/// What both players keep.
pub open spec fn both_keep(before: Table, after: Table, yard: bool) -> bool {
    &&& keeps(before.active, after.active, yard)
    &&& keeps(before.defending, after.defending, yard)
}

/// How many cards a player has, wherever they are.
pub open spec fn cards_of(player: Player) -> int {
    player.library.len() + player.hand.len() + player.battlefield.len() + player.graveyard.len()
        + player.lands
}

/// How many cards two players have.
pub open spec fn cards_at(table: Table) -> int {
    cards_of(table.active) + cards_of(table.defending)
}

proof fn lemma_hand_without(player: Player, i: int, seen: Set<Text>)
    requires
        hand_is_seen(player),
        0 <= i < player.hand.len(),
        player.seen.subset_of(seen),
    ensures
        forall|j: int|
            0 <= j < player.hand.remove(i).len() ==> seen.contains(
                #[trigger] player.hand.remove(i)[j],
            ),
{
    let rest = player.hand.remove(i);
    assert forall|j: int| 0 <= j < rest.len() implies seen.contains(#[trigger] rest[j]) by {
        if j < i {
            assert(rest[j] == player.hand[j]);
        } else {
            assert(rest[j] == player.hand[j + 1]);
        }
    }
}

proof fn lemma_buried_keeps(owner: Player, graveyard: Seq<Text>, card: Text, yard: bool)
    ensures
        keeps(owner, buried(owner, graveyard, card, yard).0, yard),
        !yard ==> cards_of(buried(owner, graveyard, card, yard).0) == cards_of(owner) + 1,
{
}

proof fn lemma_drawn_keeps(player: Player, library: Seq<Text>, yard: bool)
    ensures
        keeps(player, turn_draw(player, library, yard).0, yard),
        !yard ==> cards_of(turn_draw(player, library, yard).0) == cards_of(player),
{
    let after = turn_draw(player, library, yard).0;
    if hand_is_seen(player) {
        assert forall|i: int| 0 <= i < after.hand.len() implies after.seen.contains(
            #[trigger] after.hand[i],
        ) by {
            if i < player.hand.len() {
                assert(after.hand[i] == player.hand[i]);
            }
        }
    }
}

proof fn lemma_untapped_keeps(player: Player, yard: bool)
    ensures
        keeps(player, untapped(player), yard),
        cards_of(untapped(player)) == cards_of(player),
{
    assert(untapped(player).hand == player.hand);
}

proof fn lemma_land_keeps(player: Player, db: Cards, yard: bool)
    ensures
        land_played(player, db) matches Some((after, _)) ==> keeps(player, after, yard) && cards_of(
            after,
        ) == cards_of(player),
{
    lemma_first_exists(land_flags(player.hand, db));
    if let Some(i) = first_set(land_flags(player.hand, db)) {
        if hand_is_seen(player) {
            lemma_hand_without(player, i, player.seen.insert(player.hand[i]));
        }
    }
}

proof fn lemma_responded_keeps(responder: Player, life: int, db: Cards, yard: bool)
    ensures
        responded(responder, life, db, yard) matches Some((after, answer)) ==> {
            &&& keeps(responder, after, yard)
            &&& cards_of(after) == cards_of(responder) - if answer is Some {
                1int
            } else {
                0int
            }
        },
{
    let mana = responder.lands + responder.pool;
    let flags = response_flags(responder.hand, db, mana, life);
    lemma_first_exists(flags);
    if let Some(i) = first_set(flags) {
        if hand_is_seen(responder) {
            lemma_hand_without(responder, i, responder.seen);
        }
    }
}

proof fn lemma_resolved_keeps(table: Table, item: Item, yard: bool)
    ensures
        resolved(table, item, yard) matches Some((after, _)) ==> {
            &&& both_keep(table, after, yard)
            &&& !yard ==> cards_at(after) == cards_at(table) + 1
        },
{
    lemma_buried_keeps(table.active, table.graveyard, item.card, yard);
}

proof fn lemma_stack_keeps(stack: Seq<Item>, table: Table, db: Cards, yard: bool)
    ensures
        stack_resolved(stack, table, db, yard) matches Some(step) ==> {
            &&& both_keep(table, step.table, yard)
            &&& !yard ==> cards_at(step.table) == cards_at(table) + stack.len()
        },
    decreases table.defending.hand.len(), stack.len(),
{
    if stack.len() > 0 {
        lemma_responded(table.defending, table.active.life, db, yard);
        lemma_responded_keeps(table.defending, table.active.life, db, yard);
        match responded(table.defending, table.active.life, db, yard) {
            None => {},
            Some((defending, Some(answer))) => {
                lemma_stack_keeps(stack.push(answer), Table { defending, ..table }, db, yard);
            },
            Some((_, None)) => {
                lemma_resolved_keeps(table, stack.last(), yard);
                if let Some((after, _)) = resolved(table, stack.last(), yard) {
                    lemma_stack_keeps(stack.drop_last(), after, db, yard);
                }
            },
        }
    }
}

proof fn lemma_cast_from_keeps(mana: int, table: Table, db: Cards, yard: bool)
    ensures
        cast_from(mana, table, db, yard) matches Some(cast) ==> {
            &&& both_keep(table, cast.step.table, yard)
            &&& !yard ==> cards_at(cast.step.table) == cards_at(table)
        },
    decreases table.active.hand.len(),
{
    let hand = table.active.hand;
    let order = ranking(playable_keys(hand, db, mana));
    if order.len() > 0 {
        lemma_pick(mana, table, db, yard);
        let i = chosen_spell(hand, order, db, table.defending, yard);
        let item = Item { card: hand[i], profile: known(db, hand[i])->0 };
        let open = taken(table, i);
        if hand_is_seen(table.active) {
            lemma_hand_without(table.active, i, open.active.seen);
        }
        assert(keeps(table.active, open.active, yard));
        lemma_stack_effect(seq![item], open, db, yard);
        lemma_stack_keeps(seq![item], open, db, yard);
        if let Some(step) = stack_resolved(seq![item], open, db, yard) {
            lemma_cast_from_keeps(
                mana_left(mana, item.card, item.profile, yard),
                step.table,
                db,
                yard,
            );
        }
    }
}

proof fn lemma_cast_keeps(table: Table, db: Cards, yard: bool)
    ensures
        spells_cast(table, db, yard) matches Some(step) ==> {
            &&& both_keep(table, step.table, yard)
            &&& !yard ==> cards_at(step.table) == cards_at(table)
        },
{
    lemma_cast_from_keeps(table.active.lands + table.active.pool, table, db, yard);
}

proof fn lemma_attack_keeps(table: Table, yard: bool)
    ensures
        attacked(table, yard) matches Some(step) ==> {
            &&& both_keep(table, step.table, yard)
            &&& !yard ==> cards_at(step.table) == cards_at(table)
        },
{
    let ours = table.active.battlefield;
    let theirs = table.defending.battlefield;
    lemma_dead_or_alive(ours, fallen_attackers(ours, theirs));
    lemma_dead_or_alive(theirs, fallen_blockers(ours, theirs));
}

proof fn lemma_discard_keeps(player: Player, graveyard: Seq<Text>, db: Cards, max: nat, yard: bool)
    ensures
        ({
            let after = discarded(player, graveyard, db, max, yard).0;
            &&& keeps(player, after, yard)
            &&& !yard ==> cards_of(after) == cards_of(player)
            &&& after.hand.len() <= max
            &&& after.pool == player.pool
            &&& after.life == player.life
        }),
    decreases player.hand.len(),
{
    if player.hand.len() > max {
        lemma_discard_index(player.hand, db);
        let i = discard_index(player.hand, db);
        let kept = Player { hand: player.hand.remove(i), ..player };
        if hand_is_seen(player) {
            lemma_hand_without(player, i, player.seen);
        }
        lemma_buried_keeps(kept, graveyard, player.hand[i], yard);
        let (owner, pile) = buried(kept, graveyard, player.hand[i], yard);
        lemma_discard_keeps(owner, pile, db, max, yard);
    }
}

proof fn lemma_cycled_keeps(player: Player, graveyard: Seq<Text>, library: Seq<Text>)
    ensures
        keeps(player, cycled(player, graveyard, library).player, true),
    decreases player.hand.len() + library.len(),
{
    let flags = named_flags(player.hand, "street wraith"@);
    lemma_first_exists(flags);
    if let Some(i) = first_set(flags) {
        if player.life > 2 {
            let paid = Player { hand: player.hand.remove(i), life: player.life - 2, ..player };
            if hand_is_seen(player) {
                lemma_hand_without(player, i, player.seen);
            }
            lemma_buried_keeps(paid, graveyard, player.hand[i], true);
            let (owner, pile) = buried(paid, graveyard, player.hand[i], true);
            lemma_drawn_keeps(owner, library, true);
            let (after, stock, _) = drawn_from(owner, library);
            lemma_cycled_keeps(after, pile, stock);
        }
    }
}

proof fn lemma_reanimated_keeps(table: Table, db: Cards)
    ensures
        reanimated(table, db) matches Some(step) ==> both_keep(table, step.table, true),
{
    let flags = named_flags(table.active.hand, "reanimate"@);
    let keys = target_keys(table.defending.graveyard, db);
    lemma_first_exists(flags);
    lemma_last_greatest(keys);
    if let (Some(i), Some(k)) = (first_set(flags), last_greatest(keys)) {
        if hand_is_seen(table.active) {
            lemma_hand_without(table.active, i, table.active.seen);
        }
        let pile = table.defending.graveyard;
        let rest = pile.remove(k);
        if only_bridges(pile) {
            assert forall|j: int| 0 <= j < rest.len() implies is_bridge(#[trigger] rest[j]) by {
                if j < k {
                    assert(rest[j] == pile[j]);
                } else {
                    assert(rest[j] == pile[j + 1]);
                }
            }
        }
    }
}

proof fn lemma_pets_keep(player: Player, graveyard: Seq<Text>, db: Cards)
    ensures
        mana_activated(player, graveyard, db) matches Some((after, _, _)) ==> keeps(
            player,
            after,
            true,
        ),
    decreases player.battlefield.len(),
{
    let flags = pet_flags(player.battlefield);
    lemma_first_exists(flags);
    if let Some(i) = first_set(flags) {
        lemma_pets_keep(
            Player {
                battlefield: player.battlefield.remove(i),
                pool: player.pool + 1,
                ..player
            },
            graveyard.push(player.battlefield[i].name),
            db,
        );
    }
}

proof fn lemma_specials_keep(table: Table, library: Seq<Text>, db: Cards, yard: bool)
    ensures
        specials(table, library, db, yard) matches Some((after, _, _, _)) ==> {
            &&& both_keep(table, after, yard)
            &&& !yard ==> after == table
        },
{
    if yard {
        lemma_pets_keep(table.active, table.graveyard, db);
        if let Some((active, graveyard, _)) = mana_activated(table.active, table.graveyard, db) {
            lemma_cycled_keeps(active, graveyard, library);
            let wraiths = cycled(active, graveyard, library);
            lemma_reanimated_keeps(
                Table {
                    active: wraiths.player,
                    defending: table.defending,
                    graveyard: wraiths.graveyard,
                },
                db,
            );
        }
    }
}

proof fn lemma_phases_keep(
    table: Table,
    library: Seq<Text>,
    db: Cards,
    yard: bool,
    log: Seq<Text>,
)
    ensures
        phases_played(table, library, db, yard, log) matches Some((step, _)) ==> {
            &&& both_keep(table, step.table, yard)
            &&& !yard ==> cards_at(step.table) == cards_at(table)
            &&& step.table.active.hand.len() <= MAX_HAND_SIZE
            &&& step.table.active.pool == 0
        },
{
    lemma_land_keeps(table.active, db, yard);
    if let Some((settled, _)) = land_played(table.active, db) {
        let seated = Table { active: settled, ..table };
        lemma_specials_keep(seated, library, db, yard);
        if let Some((ready, _, _, _)) = specials(seated, library, db, yard) {
            lemma_cast_keeps(ready, db, yard);
            if let Some(main1) = spells_cast(ready, db, yard) {
                lemma_attack_keeps(main1.table, yard);
                if let Some(combat) = attacked(main1.table, yard) {
                    lemma_cast_keeps(combat.table, db, yard);
                    if let Some(main2) = spells_cast(combat.table, db, yard) {
                        lemma_discard_keeps(
                            Player { pool: 0, ..main2.table.active },
                            main2.table.graveyard,
                            db,
                            MAX_HAND_SIZE as nat,
                            yard,
                        );
                    }
                }
            }
        }
    }
}

// ---------------------------------------------------------------------------
// Choices
// ---------------------------------------------------------------------------

/// Where a hand holds a card that can be paid for and ends the game, such a card is
/// cast: the one of greatest mana value, and of several equal ones the first.
pub proof fn lemma_lethal_spell_goes_first(
    mana: int,
    hand: Seq<Text>,
    db: Cards,
    opponent: Player,
    yard: bool,
    k: int,
)
    requires
        0 <= k < hand.len(),
        is_affordable(db, hand[k], mana),
        is_lethal(db, hand[k], opponent.life),
    ensures
        ({
            let i = chosen_spell(hand, ranking(playable_keys(hand, db, mana)), db, opponent, yard);
            &&& 0 <= i < hand.len()
            &&& is_affordable(db, hand[i], mana)
            &&& is_lethal(db, hand[i], opponent.life)
            &&& value_of(db, hand[i]) > value_of(db, hand[k]) || (value_of(db, hand[i]) == value_of(
                db,
                hand[k],
            ) && i <= k)
        }),
{
    let keys = playable_keys(hand, db, mana);
    let order = ranking(keys);
    let flags = lethal_flags(hand, order, db, opponent.life);
    lemma_ranking(keys);
    assert(keys[k] is Some);
    let p = choose|p: int| 0 <= p < order.len() && order[p] == k;
    lemma_first_exists(flags);
    assert(flags[p]);
    let q = first_set(flags)->0;
    assert(keys[order[q]] is Some);
    if q < p {
        assert(goes_before(keys, order[q], order[p]));
    }
}

/// Where no card that can be paid for ends the game, and Reanimate has no say, the card
/// of greatest mana value is cast, and of several equal ones the first.
pub proof fn lemma_costliest_spell_goes_first(
    mana: int,
    hand: Seq<Text>,
    db: Cards,
    opponent: Player,
    yard: bool,
    k: int,
)
    requires
        0 <= k < hand.len(),
        is_affordable(db, hand[k], mana),
        forall|j: int|
            0 <= j < hand.len() && is_affordable(db, #[trigger] hand[j], mana) ==> !is_lethal(
                db,
                hand[j],
                opponent.life,
            ),
        yard && opponent.graveyard.len() > 0 ==> forall|j: int|
            0 <= j < hand.len() && is_affordable(db, #[trigger] hand[j], mana) ==> lowercase(
                hand[j],
            ) != "reanimate"@,
    ensures
        ({
            let i = chosen_spell(hand, ranking(playable_keys(hand, db, mana)), db, opponent, yard);
            &&& 0 <= i < hand.len()
            &&& is_affordable(db, hand[i], mana)
            &&& value_of(db, hand[i]) > value_of(db, hand[k]) || (value_of(db, hand[i]) == value_of(
                db,
                hand[k],
            ) && i <= k)
        }),
{
    let keys = playable_keys(hand, db, mana);
    let order = ranking(keys);
    lemma_ranking(keys);
    lemma_nothing_lethal(mana, hand, db, opponent);
    assert(keys[k] is Some);
    let p = choose|p: int| 0 <= p < order.len() && order[p] == k;
    if yard && opponent.graveyard.len() > 0 {
        let reanimates = reanimate_flags(hand, order);
        assert forall|q: int| 0 <= q < reanimates.len() implies !#[trigger] reanimates[q] by {
            assert(keys[order[q]] is Some);
            assert(is_affordable(db, hand[order[q]], mana));
        }
        lemma_first_unset(reanimates);
    }
    assert(keys[order[0]] is Some);
    if p > 0 {
        assert(goes_before(keys, order[0], order[p]));
    }
}

/// In the yard format Reanimate is cast before anything that does not end the game,
/// while the opponent's graveyard holds a card; of several the one of greatest mana value,
/// and of equal ones the first.
pub proof fn lemma_reanimate_goes_second(
    mana: int,
    hand: Seq<Text>,
    db: Cards,
    opponent: Player,
    k: int,
)
    requires
        0 <= k < hand.len(),
        is_affordable(db, hand[k], mana),
        lowercase(hand[k]) == "reanimate"@,
        opponent.graveyard.len() > 0,
        forall|j: int|
            0 <= j < hand.len() && is_affordable(db, #[trigger] hand[j], mana) ==> !is_lethal(
                db,
                hand[j],
                opponent.life,
            ),
    ensures
        ({
            let i = chosen_spell(hand, ranking(playable_keys(hand, db, mana)), db, opponent, true);
            &&& 0 <= i < hand.len()
            &&& is_affordable(db, hand[i], mana)
            &&& lowercase(hand[i]) == "reanimate"@
            &&& value_of(db, hand[i]) > value_of(db, hand[k]) || (value_of(db, hand[i]) == value_of(
                db,
                hand[k],
            ) && i <= k)
        }),
{
    let keys = playable_keys(hand, db, mana);
    let order = ranking(keys);
    let reanimates = reanimate_flags(hand, order);
    lemma_ranking(keys);
    lemma_nothing_lethal(mana, hand, db, opponent);
    assert(keys[k] is Some);
    let p = choose|p: int| 0 <= p < order.len() && order[p] == k;
    lemma_first_exists(reanimates);
    assert(reanimates[p]);
    let q = first_set(reanimates)->0;
    assert(keys[order[q]] is Some);
    if q < p {
        assert(goes_before(keys, order[q], order[p]));
    }
}

/// None of the ranked cards ends the game where none that can be paid for does.
proof fn lemma_nothing_lethal(mana: int, hand: Seq<Text>, db: Cards, opponent: Player)
    requires
        forall|j: int|
            0 <= j < hand.len() && is_affordable(db, #[trigger] hand[j], mana) ==> !is_lethal(
                db,
                hand[j],
                opponent.life,
            ),
    ensures
        first_set(
            lethal_flags(hand, ranking(playable_keys(hand, db, mana)), db, opponent.life),
        ) is None,
{
    let keys = playable_keys(hand, db, mana);
    let order = ranking(keys);
    let flags = lethal_flags(hand, order, db, opponent.life);
    lemma_ranking(keys);
    assert forall|q: int| 0 <= q < flags.len() implies !#[trigger] flags[q] by {
        assert(keys[order[q]] is Some);
        assert(is_affordable(db, hand[order[q]], mana));
    }
    lemma_first_unset(flags);
}

/// A player who discards ends with at most `max` cards in hand, and gives up nothing
/// while they have no more than that.
pub proof fn lemma_discard_to_hand_size(
    player: Player,
    graveyard: Seq<Text>,
    db: Cards,
    max: nat,
    yard: bool,
)
    ensures
        discarded(player, graveyard, db, max, yard).0.hand.len() <= max,
        player.hand.len() <= max ==> discarded(player, graveyard, db, max, yard) == (
            player,
            graveyard,
            Seq::<Text>::empty(),
        ),
{
    lemma_discard_keeps(player, graveyard, db, max, yard);
}

/// No card in hand is dearer than the one that is discarded.
pub proof fn lemma_dearest_card_is_discarded(hand: Seq<Text>, db: Cards, k: int)
    requires
        0 <= k < hand.len(),
    ensures
        value_of(db, hand[k]) <= value_of(db, hand[discard_index(hand, db)]),
{
    let keys = discard_keys(hand, db);
    lemma_discard_index(hand, db);
    lemma_last_greatest(keys);
    assert(keys[k] is Some);
}

/// Blood Pets are sacrificed until none is left or the hand holds nothing that the mana
/// does not pay for.
pub proof fn lemma_pets_pay_for_the_hand(player: Player, graveyard: Seq<Text>, db: Cards)
    ensures
        mana_activated(player, graveyard, db) matches Some((after, _, _)) ==> {
            ||| forall|i: int|
                0 <= i < after.battlefield.len() ==> lowercase(
                    (#[trigger] after.battlefield[i]).name,
                ) != "blood pet"@
            ||| !wants_mana(after.hand, db, after.lands + after.pool)
        },
    decreases player.battlefield.len(),
{
    let flags = pet_flags(player.battlefield);
    lemma_first_exists(flags);
    match first_set(flags) {
        None => {
            assert forall|i: int| 0 <= i < player.battlefield.len() implies lowercase(
                (#[trigger] player.battlefield[i]).name,
            ) != "blood pet"@ by {
                assert(!flags[i]);
            }
        },
        Some(i) => {
            lemma_pets_pay_for_the_hand(
                Player {
                    battlefield: player.battlefield.remove(i),
                    pool: player.pool + 1,
                    ..player
                },
                graveyard.push(player.battlefield[i].name),
                db,
            );
        },
    }
}

/// Street Wraiths are cycled until none is left in hand or the player has no more than
/// 2 life.
pub proof fn lemma_wraiths_are_cycled(player: Player, graveyard: Seq<Text>, library: Seq<Text>)
    ensures
        ({
            let after = cycled(player, graveyard, library).player;
            ||| after.life <= 2
            ||| forall|i: int|
                0 <= i < after.hand.len() ==> lowercase(#[trigger] after.hand[i])
                    != "street wraith"@
        }),
    decreases player.hand.len() + library.len(),
{
    let flags = named_flags(player.hand, "street wraith"@);
    lemma_first_exists(flags);
    match first_set(flags) {
        None => {
            assert forall|i: int| 0 <= i < player.hand.len() implies lowercase(
                #[trigger] player.hand[i],
            ) != "street wraith"@ by {
                assert(!flags[i]);
            }
        },
        Some(i) => {
            if player.life > 2 {
                let paid = Player { hand: player.hand.remove(i), life: player.life - 2, ..player };
                let (owner, pile) = buried(paid, graveyard, player.hand[i], true);
                let (after, stock, _) = drawn_from(owner, library);
                lemma_wraiths_are_cycled(after, pile, stock);
            }
        },
    }
}

// ---------------------------------------------------------------------------
// Combat
// ---------------------------------------------------------------------------

/// The power of some creatures taken together.
pub open spec fn strength(battlefield: Seq<Creature>, row: Seq<int>) -> int
    decreases row.len(),
{
    if row.len() == 0 {
        0
    } else {
        battlefield[row[0]].power + strength(battlefield, row.drop_first())
    }
}

proof fn lemma_strikes(battlefield: Seq<Creature>, free: Seq<int>, target: Text, life: int)
    ensures
        struck(battlefield, free, target, life) matches Some((left, log)) ==> {
            &&& left == life - strength(battlefield, free)
            &&& log.len() == free.len()
        },
    decreases free.len(),
{
    if free.len() > 0 {
        lemma_strikes(
            battlefield,
            free.drop_first(),
            target,
            life - battlefield[free[0]].power,
        );
    }
}

/// An attack costs the defending player the power of the attackers that nobody blocks,
/// and costs the active player no life.
pub proof fn lemma_attack_damage(table: Table, yard: bool)
    ensures
        attacked(table, yard) matches Some(step) ==> {
            let ours = table.active.battlefield;
            let theirs = table.defending.battlefield;
            &&& step.table.defending.life == table.defending.life - strength(
                ours,
                unblocked(ours, theirs),
            )
            &&& step.table.active.life == table.active.life
        },
{
    let ours = table.active.battlefield;
    let theirs = table.defending.battlefield;
    lemma_strikes(ours, unblocked(ours, theirs), table.defending.name, table.defending.life);
}

/// Of `a` attackers and `b` creatures that may block, `a - b` attackers get through, if
/// there are so many, and else none. A creature that came into play this turn is not
/// among them.
pub proof fn lemma_unblocked_attackers(ours: Seq<Creature>, theirs: Seq<Creature>)
    ensures
        blockers(theirs).len() == theirs.len(),
        unblocked(ours, theirs).len() == monus(
            attackers(ours).len() as int,
            theirs.len() as int,
        ),
        forall|p: int|
            0 <= p < unblocked(ours, theirs).len() ==> 0 <= #[trigger] unblocked(ours, theirs)[p]
                < ours.len() && !ours[unblocked(ours, theirs)[p]].sick,
{
    let keys = block_keys(theirs);
    let block = blockers(theirs);
    lemma_ranking(keys);
    lemma_full_ranking(block, keys);
    let attack = attackers(ours);
    lemma_ranking(attack_keys(ours));
    let free = unblocked(ours, theirs);
    assert forall|p: int| 0 <= p < free.len() implies 0 <= #[trigger] free[p] < ours.len()
        && !ours[free[p]].sick by {
        assert(free[p] == attack[p + block.len()]);
        assert(attack_keys(ours)[attack[p + block.len()]] is Some);
    }
}

/// A ranking in which every position qualifies is as long as the row.
proof fn lemma_full_ranking(order: Seq<int>, keys: Seq<Option<int>>)
    requires
        is_ranking(order, keys),
        forall|i: int| 0 <= i < keys.len() ==> (#[trigger] keys[i]) is Some,
    ensures
        order.len() == keys.len(),
{
    assert(order.no_duplicates()) by {
        assert forall|p: int, q: int|
            0 <= p < order.len() && 0 <= q < order.len() && p != q implies order[p] != order[q] by {
            if p < q {
                assert(goes_before(keys, order[p], order[q]));
            } else {
                assert(goes_before(keys, order[q], order[p]));
            }
        }
    }
    order.unique_seq_to_set();
    assert(order.to_set() =~= vstd::set_lib::set_int_range(0, keys.len() as int)) by {
        assert forall|i: int| 0 <= i < keys.len() implies order.contains(i) by {
            assert(keys[i] is Some);
        }
    }
    vstd::set_lib::lemma_int_range(0, keys.len() as int);
}

/// Only creatures that fight fall: an attacker that falls is blocked and did not come
/// into play this turn, and without an attacker no creature falls.
pub proof fn lemma_only_fighters_fall(ours: Seq<Creature>, theirs: Seq<Creature>, i: int)
    ensures
        attacker_falls(ours, theirs, i) ==> 0 <= i < ours.len() && !ours[i].sick
            && !unblocked(ours, theirs).contains(i),
        blocker_falls(ours, theirs, i) ==> attackers(ours).len() > 0,
{
    let keys = attack_keys(ours);
    let attack = attackers(ours);
    let block = blockers(theirs);
    let free = unblocked(ours, theirs);
    lemma_ranking(keys);
    if attacker_falls(ours, theirs, i) {
        let k = choose|k: int|
            0 <= k < attack.len() && k < block.len() && #[trigger] attack[k] == i
                && theirs[block[k]].power >= ours[i].toughness;
        assert(keys[attack[k]] is Some);
        if free.contains(i) {
            let p = choose|p: int| 0 <= p < free.len() && free[p] == i;
            assert(attack[p + block.len()] == i);
            assert(goes_before(keys, attack[k], attack[p + block.len()]));
        }
    }
}

// ---------------------------------------------------------------------------
// Turns
// ---------------------------------------------------------------------------

/// In a turn no player changes name, forgets a card, or gets a card into their hand
/// without seeing it; and in the yard format no card but Bridge from Below comes to
/// rest in a player's own graveyard.
pub proof fn lemma_turn_keeps(table: Table, library: Seq<Text>, db: Cards, yard: bool)
    ensures
        turn_taken(table, library, db, yard) matches Some(turn) ==> both_keep(
            table,
            turn.table,
            yard,
        ),
{
    lemma_turn_all(table, library, db, yard);
}

/// Outside the yard format a turn neither makes nor loses cards.
pub proof fn lemma_turn_conserves_cards(table: Table, library: Seq<Text>, db: Cards)
    ensures
        turn_taken(table, library, db, false) matches Some(turn) ==> cards_at(turn.table)
            == cards_at(table),
{
    lemma_turn_all(table, library, db, false);
}

/// A player who is alive after their draw ends the turn with at most seven cards in
/// hand and no mana.
pub proof fn lemma_turn_ends_within_hand_size(
    table: Table,
    library: Seq<Text>,
    db: Cards,
    yard: bool,
)
    requires
        turn_draw(untapped(table.active), library, yard).0.life > 0,
    ensures
        turn_taken(table, library, db, yard) matches Some(turn) ==> {
            &&& turn.table.active.hand.len() <= MAX_HAND_SIZE
            &&& turn.table.active.pool == 0
        },
{
    lemma_turn_all(table, library, db, yard);
}

/// A player with nothing to draw loses their life and does nothing else.
pub proof fn lemma_empty_library_loses(table: Table, library: Seq<Text>, db: Cards, yard: bool)
    requires
        yard ==> library.len() == 0,
        !yard ==> table.active.library.len() == 0,
    ensures
        turn_taken(table, library, db, yard) matches Some(turn) && turn.table == (Table {
            active: Player { life: 0, ..untapped(table.active) },
            ..table
        }) && turn.library == library,
{
    reveal(turn_taken);
}

proof fn lemma_turn_all(table: Table, library: Seq<Text>, db: Cards, yard: bool)
    ensures
        turn_taken(table, library, db, yard) matches Some(turn) ==> {
            &&& both_keep(table, turn.table, yard)
            &&& !yard ==> cards_at(turn.table) == cards_at(table)
            &&& turn_draw(untapped(table.active), library, yard).0.life > 0 ==> {
                &&& turn.table.active.hand.len() <= MAX_HAND_SIZE
                &&& turn.table.active.pool == 0
            }
        },
{
    reveal(turn_taken);
    let (active, stock, line) = turn_draw(untapped(table.active), library, yard);
    lemma_untapped_keeps(table.active, yard);
    lemma_drawn_keeps(untapped(table.active), library, yard);
    let opened = Table { active, ..table };
    lemma_phases_keep(opened, stock, db, yard, draw_log(line));
}

// ---------------------------------------------------------------------------
// Games
// ---------------------------------------------------------------------------

/// A game stops at its limit or when a player has no life left; it logs every round
/// in order; and nobody changes name, forgets a card or gets an unseen one into
/// their hand on the way.
pub proof fn lemma_rounds(
    first: Player,
    second: Player,
    library: Seq<Text>,
    graveyard: Seq<Text>,
    db: Cards,
    yard: bool,
    turn: nat,
    max: nat,
)
    requires
        1 <= turn <= max + 1,
    ensures
        rounds_played(first, second, library, graveyard, db, yard, turn, max) matches Some(
            rounds,
        ) ==> {
            &&& rounds.turns <= max
            &&& rounds.log.len() == rounds.turns + 1 - turn
            &&& forall|i: int|
                0 <= i < rounds.log.len() ==> (#[trigger] rounds.log[i]).turn == turn + i
            &&& rounds.turns < max ==> rounds.first.life <= 0 || rounds.second.life <= 0
            &&& keeps(first, rounds.first, yard)
            &&& keeps(second, rounds.second, yard)
        },
    decreases max + 1 - turn,
{
    if turn <= max {
        let table = Table { active: first, defending: second, graveyard };
        lemma_turn_keeps(table, library, db, yard);
        if let Some(one) = turn_taken(table, library, db, yard) {
            if one.table.defending.life > 0 {
                let swapped = Table {
                    active: one.table.defending,
                    defending: one.table.active,
                    graveyard: one.table.graveyard,
                };
                lemma_turn_keeps(swapped, one.library, db, yard);
                if let Some(two) = turn_taken(swapped, one.library, db, yard) {
                    if two.table.defending.life > 0 {
                        lemma_rounds(
                            two.table.defending,
                            two.table.active,
                            two.library,
                            two.table.graveyard,
                            db,
                            yard,
                            turn + 1,
                            max,
                        );
                    }
                }
            }
        }
    }
}

/// Outside the yard format a game neither makes nor loses cards.
pub proof fn lemma_rounds_conserve_cards(
    first: Player,
    second: Player,
    library: Seq<Text>,
    graveyard: Seq<Text>,
    db: Cards,
    turn: nat,
    max: nat,
)
    ensures
        rounds_played(first, second, library, graveyard, db, false, turn, max) matches Some(
            rounds,
        ) ==> cards_of(rounds.first) + cards_of(rounds.second) == cards_of(first) + cards_of(
            second,
        ),
    decreases max + 1 - turn,
{
    if turn <= max {
        let table = Table { active: first, defending: second, graveyard };
        lemma_turn_conserves_cards(table, library, db);
        if let Some(one) = turn_taken(table, library, db, false) {
            if one.table.defending.life > 0 {
                let swapped = Table {
                    active: one.table.defending,
                    defending: one.table.active,
                    graveyard: one.table.graveyard,
                };
                lemma_turn_conserves_cards(swapped, one.library, db);
                if let Some(two) = turn_taken(swapped, one.library, db, false) {
                    if two.table.defending.life > 0 {
                        lemma_rounds_conserve_cards(
                            two.table.defending,
                            two.table.active,
                            two.library,
                            two.table.graveyard,
                            db,
                            turn + 1,
                            max,
                        );
                    }
                }
            }
        }
    }
}

/// A shared library is dealt one card at a time: the first player gets the top card
/// and every second one after it, the second player those between.
pub proof fn lemma_shared_library_is_dealt_in_turn(
    n: nat,
    first: Player,
    second: Player,
    library: Seq<Text>,
)
    requires
        2 * n <= library.len(),
    ensures
        ({
            let (one, two, rest) = opening(n, first, second, library, true);
            &&& one.hand == first.hand + Seq::new(n, |i: int| library[library.len() - 1 - 2 * i])
            &&& two.hand == second.hand + Seq::new(n, |i: int| library[library.len() - 2 - 2 * i])
            &&& rest == library.take(library.len() - 2 * n)
            &&& one.life == first.life
            &&& two.life == second.life
        }),
    decreases n,
{
    let top = library.len();
    let own = Seq::new(n, |i: int| library[library.len() - 1 - 2 * i]);
    let other = Seq::new(n, |i: int| library[library.len() - 2 - 2 * i]);
    if n == 0 {
        assert(first.hand + own =~= first.hand);
        assert(second.hand + other =~= second.hand);
        assert(library.take(top as int) =~= library);
    } else {
        let (one, stock, _) = turn_draw(first, library, true);
        let (two, rest, _) = turn_draw(second, stock, true);
        lemma_shared_library_is_dealt_in_turn((n - 1) as nat, one, two, rest);
        let m = (n - 1) as nat;
        assert(rest =~= library.take(top - 2));
        assert(one.hand + Seq::new(m, |i: int| rest[rest.len() - 1 - 2 * i]) =~= first.hand + own);
        assert(two.hand + Seq::new(m, |i: int| rest[rest.len() - 2 - 2 * i]) =~= second.hand
            + other);
        assert(rest.take(rest.len() - 2 * m) =~= library.take(top - 2 * n));
    }
}

/// With own libraries each player draws their own top cards.
pub proof fn lemma_own_libraries_are_drawn(
    n: nat,
    first: Player,
    second: Player,
    library: Seq<Text>,
)
    requires
        n <= first.library.len(),
        n <= second.library.len(),
    ensures
        ({
            let (one, two, rest) = opening(n, first, second, library, false);
            &&& one.hand == first.hand + first.library.skip(first.library.len() - n).reverse()
            &&& two.hand == second.hand + second.library.skip(second.library.len() - n).reverse()
            &&& one.library == first.library.take(first.library.len() - n)
            &&& two.library == second.library.take(second.library.len() - n)
            &&& rest == library
            &&& one.life == first.life
            &&& two.life == second.life
        }),
    decreases n,
{
    if n == 0 {
        assert(first.hand + first.library.skip(first.library.len() as int).reverse()
            =~= first.hand);
        assert(second.hand + second.library.skip(second.library.len() as int).reverse()
            =~= second.hand);
        assert(first.library.take(first.library.len() as int) =~= first.library);
        assert(second.library.take(second.library.len() as int) =~= second.library);
    } else {
        let (one, stock, _) = turn_draw(first, library, false);
        let (two, _, _) = turn_draw(second, stock, false);
        let m = (n - 1) as nat;
        lemma_own_libraries_are_drawn(m, one, two, library);
        assert(one.hand + one.library.skip(one.library.len() - m).reverse() =~= first.hand
            + first.library.skip(first.library.len() - n).reverse());
        assert(two.hand + two.library.skip(two.library.len() - m).reverse() =~= second.hand
            + second.library.skip(second.library.len() - n).reverse());
        assert(one.library.take(one.library.len() - m) =~= first.library.take(
            first.library.len() - n,
        ));
        assert(two.library.take(two.library.len() - m) =~= second.library.take(
            second.library.len() - n,
        ));
    }
}

/// The opening draws keep what turns keep, and without a shared library they neither make
/// nor lose cards.
pub proof fn lemma_opening(
    n: nat,
    first: Player,
    second: Player,
    library: Seq<Text>,
    yard: bool,
)
    ensures
        ({
            let (one, two, _) = opening(n, first, second, library, yard);
            &&& keeps(first, one, yard)
            &&& keeps(second, two, yard)
            &&& !yard ==> cards_of(one) == cards_of(first) && cards_of(two) == cards_of(second)
        }),
    decreases n,
{
    if n > 0 {
        lemma_drawn_keeps(first, library, yard);
        let (one, stock, _) = turn_draw(first, library, yard);
        lemma_drawn_keeps(second, stock, yard);
        let (two, rest, _) = turn_draw(second, stock, yard);
        lemma_opening((n - 1) as nat, one, two, rest, yard);
    }
}

/// What the record of a game says: how many rounds were played, each with its number;
/// a winner who is one of the players, or else a draw; and, in order and each once, the
/// cards that each player saw, their opening hand among them.
pub proof fn lemma_game_record(
    number: nat,
    first: Player,
    second: Player,
    library: Seq<Text>,
    db: Cards,
    max: nat,
    yard: bool,
)
    requires
        first.hand.len() == 0,
        second.hand.len() == 0,
        first.seen.finite(),
        second.seen.finite(),
    ensures
        game_played(number, first, second, library, db, max, yard) matches Some(game) ==> {
            let (one, two, _) = opening(STARTING_HAND_SIZE as nat, first, second, library, yard);
            &&& game.number == number
            &&& game.turns <= max
            &&& game.turns < max ==> game.player1_life <= 0 || game.player2_life <= 0
            &&& game.log.len() == game.turns
            &&& forall|i: int| 0 <= i < game.log.len() ==> (#[trigger] game.log[i]).turn == i + 1
            &&& game.winner == first.name || game.winner == second.name || game.winner == "Draw"@
            &&& game.player1_life > 0 && game.player2_life <= 0 ==> game.winner == first.name
            &&& game.player1_life <= 0 && game.player2_life > 0 ==> game.winner == second.name
            &&& forall|p: int, q: int|
                0 <= p < q < game.player1_cards_seen.len() ==> text_before(
                    #[trigger] game.player1_cards_seen[p],
                    #[trigger] game.player1_cards_seen[q],
                )
            &&& forall|p: int, q: int|
                0 <= p < q < game.player2_cards_seen.len() ==> text_before(
                    #[trigger] game.player2_cards_seen[p],
                    #[trigger] game.player2_cards_seen[q],
                )
            &&& forall|i: int|
                0 <= i < one.hand.len() ==> game.player1_cards_seen.contains(#[trigger] one.hand[i])
            &&& forall|i: int|
                0 <= i < two.hand.len() ==> game.player2_cards_seen.contains(#[trigger] two.hand[i])
        },
{
    let (one, two, stock) = opening(STARTING_HAND_SIZE as nat, first, second, library, yard);
    lemma_opening(STARTING_HAND_SIZE as nat, first, second, library, yard);
    lemma_rounds(one, two, stock, Seq::empty(), db, yard, 1, max);
    if let Some(rounds) = rounds_played(one, two, stock, Seq::empty(), db, yard, 1, max) {
        lemma_listing(rounds.first.seen);
        lemma_listing(rounds.second.seen);
        assert forall|i: int| 0 <= i < one.hand.len() implies listing(rounds.first.seen).contains(
            #[trigger] one.hand[i],
        ) by {
            assert(one.seen.contains(one.hand[i]));
            assert(rounds.first.seen.contains(one.hand[i]));
        }
        assert forall|i: int| 0 <= i < two.hand.len() implies listing(rounds.second.seen).contains(
            #[trigger] two.hand[i],
        ) by {
            assert(two.seen.contains(two.hand[i]));
            assert(rounds.second.seen.contains(two.hand[i]));
        }
    }
}

/// Who wins does not depend on who sits first.
pub proof fn lemma_winner_does_not_depend_on_seat(first: Player, second: Player)
    ensures
        winner(first, second) == winner(second, first),
{
}

/// Of two players, the one who alone has life left wins.
pub proof fn lemma_survivor_wins(survivor: Player, loser: Player)
    requires
        survivor.life > 0,
        loser.life <= 0,
    ensures
        winner(survivor, loser) == survivor.name,
        winner(loser, survivor) == survivor.name,
{
}

} // verus!
