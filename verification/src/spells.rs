//! Spells: casting them, answering them and what they do.

use crate::cards::{
    card_names, card_profile_for, known, normalize_name, CardDb, CardKind, CardProfile, Cards,
    DeckCard, Profile,
};
use crate::players::{
    buried, is_life, is_mana, is_step, lemma_logged_nothing, lemma_logged_twice, logged,
    put_in_yard_graveyard, Creature, CreaturePermanent, OutOfRange, Player, PlayerState, Step,
    Table,
};
use crate::ranking::{
    first_set, is_first, is_ranking, lemma_first_exists, lemma_first_set, lemma_first_unset,
    lemma_ranking, positions, rank, ranking, widened,
};
use crate::seen::{append_all, texts};
use crate::text::{
    append_decimal, append_signed, decimal, lowercase, same_text, signed_decimal, Text,
};
use vstd::prelude::*;

verus! {

/// A spell on the stack.
#[derive(Debug)]
pub struct StackItem {
    pub card: DeckCard,
    pub profile: CardProfile,
}

/// The model of a `StackItem`.
#[verifier::ext_equal]
pub struct Item {
    pub card: Text,
    pub profile: Profile,
}

impl View for StackItem {
    type V = Item;

    open spec fn view(&self) -> Item {
        Item { card: self.card@, profile: self.profile@ }
    }
}

/// The models of a stack.
pub open spec fn items(stack: Seq<StackItem>) -> Seq<Item> {
    stack.map_values(|item: StackItem| item@)
}

// ---------------------------------------------------------------------------
// Resolving a spell
// ---------------------------------------------------------------------------

/// The log line of a creature spell.
pub open spec fn creature_line(name: Text, power: int, toughness: int) -> Text {
    "Cast creature "@ + name + " ("@ + signed_decimal(power) + "/"@ + signed_decimal(toughness)
        + ")"@
}

/// The log line of a burn spell.
pub open spec fn burn_line(name: Text, damage: int, target: Text, life: int) -> Text {
    "Cast burn "@ + name + " for "@ + signed_decimal(damage) + " damage to "@ + target
        + " (life now "@ + signed_decimal(life) + ")."@
}

/// The log line of a ritual.
pub open spec fn ritual_line(name: Text, mana: nat, pool: nat) -> Text {
    "Resolved ritual "@ + name + " and added "@ + decimal(mana) + " mana (pool "@ + decimal(pool)
        + ")."@
}

/// The log line of any other spell.
pub open spec fn spell_line(name: Text) -> Text {
    "Cast spell "@ + name + "."@
}

/// The table with `card` of the active player laid aside.
pub open spec fn laid_aside(table: Table, card: Text, yard: bool) -> Table {
    let (owner, pile) = buried(table.active, table.graveyard, card, yard);
    Table { active: owner, graveyard: pile, ..table }
}

/// What resolving a spell does: the table after it and the log line. A creature
/// comes into play under the active player, burn hits the defending player, a
/// ritual fills the active player's pool. `None` where life or mana leaves its
/// range.
pub open spec fn resolved(table: Table, item: Item, yard: bool) -> Option<(Table, Text)> {
    let name = item.profile.name;
    match item.profile.kind {
        CardKind::Creature { power, toughness } => {
            let creature = Creature {
                name,
                power: power as int,
                toughness: toughness as int,
                sick: true,
            };
            Some(
                (
                    Table {
                        active: Player {
                            battlefield: table.active.battlefield.push(creature),
                            ..table.active
                        },
                        ..table
                    },
                    creature_line(name, power as int, toughness as int),
                ),
            )
        },
        CardKind::Burn { damage } => {
            let life = table.defending.life - damage;
            if is_life(life) {
                Some(
                    (
                        laid_aside(
                            Table { defending: Player { life, ..table.defending }, ..table },
                            item.card,
                            yard,
                        ),
                        burn_line(name, damage as int, table.defending.name, life),
                    ),
                )
            } else {
                None
            }
        },
        CardKind::ManaRitual { mana } => {
            let pool = table.active.pool + mana;
            if is_mana(pool) {
                Some(
                    (
                        laid_aside(
                            Table { active: Player { pool, ..table.active }, ..table },
                            item.card,
                            yard,
                        ),
                        ritual_line(name, mana as nat, pool as nat),
                    ),
                )
            } else {
                None
            }
        },
        _ => Some((laid_aside(table, item.card, yard), spell_line(name))),
    }
}

/// Whether a function that returned `action` and left `table` behind has made
/// `change`.
pub open spec fn is_change(
    action: Result<String, OutOfRange>,
    table: Table,
    change: Option<(Table, Text)>,
) -> bool {
    match change {
        Some((after, line)) => action is Ok && action->Ok_0@ == line && table == after,
        None => action is Err,
    }
}

fn creature_action(name: &str, power: i32, toughness: i32) -> (action: String)
    ensures
        action@ == creature_line(name@, power as int, toughness as int),
{
    let mut action = "Cast creature ".to_string();
    action.append(name);
    action.append(" (");
    append_signed(&mut action, power);
    action.append("/");
    append_signed(&mut action, toughness);
    action.append(")");
    action
}

fn burn_action(name: &str, damage: i32, target: &str, life: i32) -> (action: String)
    ensures
        action@ == burn_line(name@, damage as int, target@, life as int),
{
    let mut action = "Cast burn ".to_string();
    action.append(name);
    action.append(" for ");
    append_signed(&mut action, damage);
    action.append(" damage to ");
    action.append(target);
    action.append(" (life now ");
    append_signed(&mut action, life);
    action.append(").");
    action
}

fn ritual_action(name: &str, mana: u32, pool: u32) -> (action: String)
    ensures
        action@ == ritual_line(name@, mana as nat, pool as nat),
{
    let mut action = "Resolved ritual ".to_string();
    action.append(name);
    action.append(" and added ");
    append_decimal(&mut action, mana as u64);
    action.append(" mana (pool ");
    append_decimal(&mut action, pool as u64);
    action.append(").");
    action
}

fn spell_action(name: &str) -> (action: String)
    ensures
        action@ == spell_line(name@),
{
    let mut action = "Cast spell ".to_string();
    action.append(name);
    action.append(".");
    action
}

pub(crate) fn enter_battlefield(player: &mut PlayerState, name: &str, power: i32, toughness: i32)
    ensures
        final(player)@ == (Player {
            battlefield: old(player)@.battlefield.push(
                Creature {
                    name: name@,
                    power: power as int,
                    toughness: toughness as int,
                    sick: true,
                },
            ),
            ..old(player)@
        }),
{
    let creature = CreaturePermanent {
        card_name: name.to_string(),
        power,
        toughness,
        summoning_sick: true,
    };
    let ghost model = creature@;
    player.battlefield.push(creature);
    assert(player@.battlefield =~= old(player)@.battlefield.push(model));
}

/// Resolves a spell of the active player.
pub fn resolve_spell(
    active: &mut PlayerState,
    defending: &mut PlayerState,
    card: DeckCard,
    profile: &CardProfile,
) -> (action: Result<String, OutOfRange>)
    ensures
        is_change(
            action,
            Table { active: final(active)@, defending: final(defending)@, graveyard: Seq::empty() },
            resolved(
                Table { active: old(active)@, defending: old(defending)@, graveyard: Seq::empty() },
                Item { card: card@, profile: profile@ },
                false,
            ),
        ),
{
    let ghost name = card@;
    match profile.kind {
        CardKind::Creature { power, toughness } => {
            enter_battlefield(active, profile.name.as_str(), power, toughness);
            Ok(creature_action(profile.name.as_str(), power, toughness))
        },
        CardKind::Burn { damage } => {
            match defending.life.checked_sub(damage) {
                Some(life) => {
                    defending.life = life;
                },
                None => {
                    return Err(OutOfRange);
                },
            }
            active.graveyard.push(card);
            assert(active@.graveyard =~= old(active)@.graveyard.push(name));
            Ok(
                burn_action(
                    profile.name.as_str(),
                    damage,
                    defending.name.as_str(),
                    defending.life,
                ),
            )
        },
        CardKind::ManaRitual { mana } => {
            match active.mana_pool.checked_add(mana) {
                Some(pool) => {
                    active.mana_pool = pool;
                },
                None => {
                    return Err(OutOfRange);
                },
            }
            active.graveyard.push(card);
            assert(active@.graveyard =~= old(active)@.graveyard.push(name));
            Ok(ritual_action(profile.name.as_str(), mana, active.mana_pool))
        },
        _ => {
            active.graveyard.push(card);
            assert(active@.graveyard =~= old(active)@.graveyard.push(name));
            Ok(spell_action(profile.name.as_str()))
        },
    }
}

/// Resolves a spell of the active player in the yard format.
pub fn resolve_spell_yard(
    active: &mut PlayerState,
    defending: &mut PlayerState,
    card: DeckCard,
    profile: &CardProfile,
    shared_graveyard: &mut Vec<DeckCard>,
) -> (action: Result<String, OutOfRange>)
    ensures
        is_change(
            action,
            Table {
                active: final(active)@,
                defending: final(defending)@,
                graveyard: card_names(final(shared_graveyard)@),
            },
            resolved(
                Table {
                    active: old(active)@,
                    defending: old(defending)@,
                    graveyard: card_names(old(shared_graveyard)@),
                },
                Item { card: card@, profile: profile@ },
                true,
            ),
        ),
{
    match profile.kind {
        CardKind::Creature { power, toughness } => {
            enter_battlefield(active, profile.name.as_str(), power, toughness);
            Ok(creature_action(profile.name.as_str(), power, toughness))
        },
        CardKind::Burn { damage } => {
            match defending.life.checked_sub(damage) {
                Some(life) => {
                    defending.life = life;
                },
                None => {
                    return Err(OutOfRange);
                },
            }
            put_in_yard_graveyard(active, card, shared_graveyard);
            Ok(
                burn_action(
                    profile.name.as_str(),
                    damage,
                    defending.name.as_str(),
                    defending.life,
                ),
            )
        },
        CardKind::ManaRitual { mana } => {
            match active.mana_pool.checked_add(mana) {
                Some(pool) => {
                    active.mana_pool = pool;
                },
                None => {
                    return Err(OutOfRange);
                },
            }
            put_in_yard_graveyard(active, card, shared_graveyard);
            Ok(ritual_action(profile.name.as_str(), mana, active.mana_pool))
        },
        _ => {
            put_in_yard_graveyard(active, card, shared_graveyard);
            Ok(spell_action(profile.name.as_str()))
        },
    }
}

// ---------------------------------------------------------------------------
// Answering a spell
// ---------------------------------------------------------------------------

/// What a card costs in the yard format, where two cards are free.
pub open spec fn yard_cost(name: Text, base: int) -> int {
    if lowercase(name) == "street wraith"@ || lowercase(name) == "contagion"@ {
        0
    } else {
        base
    }
}

/// What a card costs in the yard format, where two cards are free.
pub fn effective_yard_cost(card_name: &str, base_cmc: u32) -> (cost: u32)
    ensures
        cost == yard_cost(card_name@, base_cmc as int),
{
    let key = normalize_name(card_name);
    if same_text(key.as_str(), "street wraith") || same_text(key.as_str(), "contagion") {
        0
    } else {
        base_cmc
    }
}

/// `a - b`, or 0 where that is negative.
pub open spec fn monus(a: int, b: int) -> int {
    if a > b {
        a - b
    } else {
        0
    }
}

/// Whether the card called `name` deals at least `life` damage.
pub open spec fn is_lethal(db: Cards, name: Text, life: int) -> bool {
    match known(db, name) {
        Some(profile) => match profile.kind {
            CardKind::Burn { damage } => damage >= life,
            _ => false,
        },
        None => false,
    }
}

/// Whether the card called `name` is known and costs at most `mana`.
pub open spec fn is_affordable(db: Cards, name: Text, mana: int) -> bool {
    match known(db, name) {
        Some(profile) => profile.cmc <= mana,
        None => false,
    }
}

/// Which cards of a hand can be cast with `mana` and deal at least `life` damage.
pub open spec fn response_flags(hand: Seq<Text>, db: Cards, mana: int, life: int) -> Seq<bool> {
    hand.map_values(
        |name: Text| is_affordable(db, name, mana) && is_lethal(db, name, life),
    )
}

/// The answer of a player to a spell: the first burn spell in hand that would end
/// the game for an opponent with `life`, if there is one. Gives the player after
/// it and the spell; `None` where the mana leaves its range.
pub open spec fn responded(responder: Player, life: int, db: Cards, yard: bool) -> Option<
    (Player, Option<Item>),
> {
    let mana = responder.lands + responder.pool;
    if !is_mana(mana) {
        None
    } else {
        match first_set(response_flags(responder.hand, db, mana, life)) {
            None => Some((responder, None)),
            Some(i) => {
                let card = responder.hand[i];
                let profile = known(db, card)->0;
                let cost = if yard {
                    yard_cost(card, profile.cmc as int)
                } else {
                    profile.cmc as int
                };
                Some(
                    (
                        Player {
                            hand: responder.hand.remove(i),
                            pool: monus(mana, cost),
                            ..responder
                        },
                        Some(Item { card, profile }),
                    ),
                )
            },
        }
    }
}

fn is_lethal_card(profile: &CardProfile, life: i32) -> (lethal: bool)
    ensures
        lethal == match profile@.kind {
            CardKind::Burn { damage } => damage >= life,
            _ => false,
        },
{
    match profile.kind {
        CardKind::Burn { damage } => damage >= life,
        _ => false,
    }
}

/// The first burn spell in a hand that costs at most `mana` and deals at least
/// `life` damage.
fn find_response(hand: &Vec<DeckCard>, card_db: &CardDb, mana: u32, life: i32) -> (found: Option<
    usize,
>)
    ensures
        match found {
            Some(i) => is_first(
                response_flags(card_names(hand@), card_db@, mana as int, life as int),
                i as int,
            ),
            None => first_set(
                response_flags(card_names(hand@), card_db@, mana as int, life as int),
            ) is None,
        },
{
    let ghost flags = response_flags(card_names(hand@), card_db@, mana as int, life as int);
    let mut i: usize = 0;
    while i < hand.len()
        invariant
            flags == response_flags(card_names(hand@), card_db@, mana as int, life as int),
            i <= hand@.len(),
            forall|j: int| 0 <= j < i ==> !#[trigger] flags[j],
        decreases hand@.len() - i,
    {
        proof {
            let name = hand@[i as int]@;
            assert(flags[i as int] == (is_affordable(card_db@, name, mana as int) && is_lethal(
                card_db@,
                name,
                life as int,
            )));
        }
        if let Some(profile) = card_profile_for(&hand[i], card_db) {
            if profile.cmc <= mana && is_lethal_card(profile, life) {
                return Some(i);
            }
        }
        i += 1;
    }
    proof {
        lemma_first_unset(flags);
    }
    None
}

/// Lets `responder` answer a spell of `opponent` with the first burn spell in hand
/// that would end the game.
pub fn maybe_response_spell(
    responder: &mut PlayerState,
    opponent: &PlayerState,
    card_db: &CardDb,
    yard_mode: bool,
) -> (response: Result<Option<StackItem>, OutOfRange>)
    ensures
        match responded(old(responder)@, opponent@.life, card_db@, yard_mode) {
            None => response is Err,
            Some((after, item)) => {
                &&& response is Ok
                &&& final(responder)@ == after
                &&& item == match response->Ok_0 {
                    Some(spell) => Some(spell@),
                    None => None,
                }
            },
        },
{
    let mana_available = match responder.lands_in_play.checked_add(responder.mana_pool) {
        Some(mana) => mana,
        None => {
            return Err(OutOfRange);
        },
    };
    let lethal_idx = match find_response(&responder.hand, card_db, mana_available, opponent.life) {
        Some(i) => i,
        None => {
            return Ok(None);
        },
    };
    let ghost flags = response_flags(
        responder@.hand,
        card_db@,
        mana_available as int,
        opponent@.life,
    );
    proof {
        lemma_first_set(flags, lethal_idx as int);
    }
    let card = responder.hand.remove(lethal_idx);
    proof {
        assert(card@ == old(responder)@.hand[lethal_idx as int]);
        assert(flags[lethal_idx as int]);
        assert(responder@.hand =~= old(responder)@.hand.remove(lethal_idx as int));
    }
    let profile = match card_profile_for(&card, card_db) {
        Some(found) => found.clone(),
        None => {
            assert(false);
            return Ok(None);
        },
    };
    let cost = if yard_mode {
        effective_yard_cost(card.name.as_str(), profile.cmc)
    } else {
        profile.cmc
    };
    responder.mana_pool = mana_available.saturating_sub(cost);
    Ok(Some(StackItem { card, profile }))
}

// ---------------------------------------------------------------------------
// The stack
// ---------------------------------------------------------------------------

/// The log line of an answer.
pub open spec fn response_line(player: Text, spell: Text) -> Text {
    player + " responds with "@ + spell + "."@
}

/// Resolving a stack from its top (the last item) down. Before each spell the
/// defending player may answer, and the answer goes on top of the stack.
pub open spec fn stack_resolved(stack: Seq<Item>, table: Table, db: Cards, yard: bool) -> Option<
    Step,
>
    decreases table.defending.hand.len(), stack.len(),
    via stack_resolved_decreases
{
    if stack.len() == 0 {
        Some(Step { table, log: Seq::empty() })
    } else {
        match responded(table.defending, table.active.life, db, yard) {
            None => None,
            Some((defending, Some(answer))) => logged(
                seq![response_line(defending.name, answer.profile.name)],
                stack_resolved(stack.push(answer), Table { defending, ..table }, db, yard),
            ),
            Some((_, None)) => match resolved(table, stack.last(), yard) {
                None => None,
                Some((after, line)) => logged(
                    seq![line],
                    stack_resolved(stack.drop_last(), after, db, yard),
                ),
            },
        }
    }
}

#[via_fn]
proof fn stack_resolved_decreases(stack: Seq<Item>, table: Table, db: Cards, yard: bool) {
    lemma_responded(table.defending, table.active.life, db, yard);
}

/// An answer leaves the hand; without one the player stays as they were.
pub proof fn lemma_responded(responder: Player, life: int, db: Cards, yard: bool)
    ensures
        match responded(responder, life, db, yard) {
            None => true,
            Some((after, None)) => after == responder,
            Some((after, Some(answer))) => {
                &&& after.hand.len() == responder.hand.len() - 1
                &&& is_lethal(db, answer.card, life)
                &&& known(db, answer.card) == Some(answer.profile)
                &&& is_mana(after.pool)
            },
        },
{
    let mana = responder.lands + responder.pool;
    lemma_first_exists(response_flags(responder.hand, db, mana, life));
}

fn response_action(player: &str, spell: &str) -> (action: String)
    ensures
        action@ == response_line(player@, spell@),
{
    let mut action = player.to_string();
    action.append(" responds with ");
    action.append(spell);
    action.append(".");
    action
}

/// Resolves the stack. Before each spell the defending player may answer.
pub fn resolve_stack(
    stack: &mut Vec<StackItem>,
    active: &mut PlayerState,
    defending: &mut PlayerState,
    card_db: &CardDb,
    yard_mode: bool,
    shared_graveyard: &mut Vec<DeckCard>,
) -> (actions: Result<Vec<String>, OutOfRange>)
    ensures
        is_step(
            actions,
            Table {
                active: final(active)@,
                defending: final(defending)@,
                graveyard: card_names(final(shared_graveyard)@),
            },
            stack_resolved(
                items(old(stack)@),
                Table {
                    active: old(active)@,
                    defending: old(defending)@,
                    graveyard: card_names(old(shared_graveyard)@),
                },
                card_db@,
                yard_mode,
            ),
        ),
        actions is Ok ==> final(stack)@.len() == 0,
{
    let mut actions: Vec<String> = Vec::new();
    let ghost whole = stack_resolved(
        items(stack@),
        Table {
            active: active@,
            defending: defending@,
            graveyard: card_names(shared_graveyard@),
        },
        card_db@,
        yard_mode,
    );
    proof {
        assert(texts(actions@) =~= Seq::<Text>::empty());
        lemma_logged_nothing(whole);
    }
    while stack.len() > 0
        invariant
            whole == stack_resolved(
                items(old(stack)@),
                Table {
                    active: old(active)@,
                    defending: old(defending)@,
                    graveyard: card_names(old(shared_graveyard)@),
                },
                card_db@,
                yard_mode,
            ),
            whole == logged(
                texts(actions@),
                stack_resolved(
                    items(stack@),
                    Table {
                        active: active@,
                        defending: defending@,
                        graveyard: card_names(shared_graveyard@),
                    },
                    card_db@,
                    yard_mode,
                ),
            ),
        decreases defending.hand@.len(), stack@.len(),
    {
        let ghost before = Table {
            active: active@,
            defending: defending@,
            graveyard: card_names(shared_graveyard@),
        };
        let ghost pile = items(stack@);
        let ghost log = texts(actions@);
        proof {
            lemma_responded(defending@, active@.life, card_db@, yard_mode);
        }
        let response = match maybe_response_spell(defending, active, card_db, yard_mode) {
            Ok(response) => response,
            Err(error) => {
                return Err(error);
            },
        };
        if let Some(answer) = response {
            let ghost line = response_line(defending@.name, answer@.profile.name);
            actions.push(response_action(defending.name.as_str(), answer.profile.name.as_str()));
            let ghost model = answer@;
            stack.push(answer);
            proof {
                assert(items(stack@) =~= pile.push(model));
                assert(texts(actions@) =~= log + seq![line]);
                lemma_logged_twice(
                    log,
                    seq![line],
                    stack_resolved(
                        items(stack@),
                        Table { defending: defending@, ..before },
                        card_db@,
                        yard_mode,
                    ),
                );
            }
        } else if let Some(item) = stack.pop() {
            assert(item@ == pile.last());
            assert(items(stack@) =~= pile.drop_last());
            let resolution = if yard_mode {
                resolve_spell_yard(active, defending, item.card, &item.profile, shared_graveyard)
            } else {
                resolve_spell(active, defending, item.card, &item.profile)
            };
            let action = match resolution {
                Ok(action) => action,
                Err(error) => {
                    return Err(error);
                },
            };
            let ghost line = action@;
            actions.push(action);
            proof {
                let after = Table {
                    active: active@,
                    defending: defending@,
                    graveyard: card_names(shared_graveyard@),
                };
                assert(resolved(before, pile.last(), yard_mode) == Some((after, line)));
                assert(texts(actions@) =~= log + seq![line]);
                lemma_logged_twice(
                    log,
                    seq![line],
                    stack_resolved(items(stack@), after, card_db@, yard_mode),
                );
            }
        }
    }
    assert(texts(actions@) + Seq::<Text>::empty() =~= texts(actions@));
    Ok(actions)
}

/// Whether `after` differs from `before` only in the active player's battlefield,
/// graveyard and pool, the defending player's life, hand and pool, and the shared
/// graveyard.
pub open spec fn is_spell_effect(before: Table, after: Table) -> bool {
    &&& after.active == (Player {
        battlefield: after.active.battlefield,
        graveyard: after.active.graveyard,
        pool: after.active.pool,
        ..before.active
    })
    &&& after.defending == (Player {
        life: after.defending.life,
        hand: after.defending.hand,
        pool: after.defending.pool,
        ..before.defending
    })
}

/// Spells on the stack touch nothing else.
pub proof fn lemma_stack_effect(stack: Seq<Item>, table: Table, db: Cards, yard: bool)
    ensures
        stack_resolved(stack, table, db, yard) matches Some(step) ==> is_spell_effect(
            table,
            step.table,
        ),
    decreases table.defending.hand.len(), stack.len(),
{
    if stack.len() > 0 {
        lemma_responded(table.defending, table.active.life, db, yard);
        match responded(table.defending, table.active.life, db, yard) {
            None => {},
            Some((defending, Some(answer))) => {
                lemma_stack_effect(stack.push(answer), Table { defending, ..table }, db, yard);
            },
            Some((_, None)) => {
                match resolved(table, stack.last(), yard) {
                    None => {},
                    Some((after, _)) => {
                        lemma_stack_effect(stack.drop_last(), after, db, yard);
                    },
                }
            },
        }
    }
}

// ---------------------------------------------------------------------------
// Casting
// ---------------------------------------------------------------------------

/// The mana values of the cards of a hand that `mana` pays for.
pub open spec fn playable_keys(hand: Seq<Text>, db: Cards, mana: int) -> Seq<Option<int>> {
    hand.map_values(
        |name: Text|
            if is_affordable(db, name, mana) {
                Some(known(db, name)->0.cmc as int)
            } else {
                None
            },
    )
}

/// Which of the ranked cards of a hand deal at least `life` damage.
pub open spec fn lethal_flags(hand: Seq<Text>, order: Seq<int>, db: Cards, life: int) -> Seq<bool> {
    order.map_values(|i: int| is_lethal(db, hand[i], life))
}

/// Which of the ranked cards of a hand are Reanimate.
pub open spec fn reanimate_flags(hand: Seq<Text>, order: Seq<int>) -> Seq<bool> {
    order.map_values(|i: int| lowercase(hand[i]) == "reanimate"@)
}

/// The card to cast: the first of the ranked cards that ends the game, or else the
/// first of all. In the yard format Reanimate comes between the two while the
/// opponent's graveyard holds a card.
pub open spec fn chosen_spell(
    hand: Seq<Text>,
    order: Seq<int>,
    db: Cards,
    opponent: Player,
    yard: bool,
) -> int {
    match first_set(lethal_flags(hand, order, db, opponent.life)) {
        Some(p) => order[p],
        None => if yard && opponent.graveyard.len() > 0 {
            match first_set(reanimate_flags(hand, order)) {
                Some(p) => order[p],
                None => order[0],
            }
        } else {
            order[0]
        },
    }
}

/// The card to cast is one of the ranked ones.
pub proof fn lemma_chosen_spell(
    hand: Seq<Text>,
    order: Seq<int>,
    db: Cards,
    opponent: Player,
    yard: bool,
)
    requires
        order.len() > 0,
    ensures
        order.contains(chosen_spell(hand, order, db, opponent, yard)),
{
    lemma_first_exists(lethal_flags(hand, order, db, opponent.life));
    lemma_first_exists(reanimate_flags(hand, order));
    assert(order.contains(order[0]));
}

/// The mana that is left of `mana` after a spell. In the yard format some cards
/// are free, and a ritual pays its mana at once.
pub open spec fn mana_left(mana: int, card: Text, profile: Profile, yard: bool) -> int {
    if yard {
        let left = monus(mana, yard_cost(card, profile.cmc as int));
        match profile.kind {
            CardKind::ManaRitual { mana: extra } => if left + extra > u32::MAX {
                u32::MAX as int
            } else {
                left + extra
            },
            _ => left,
        }
    } else {
        monus(mana, profile.cmc as int)
    }
}

/// The log line of a spell that goes on the stack.
pub open spec fn stack_line(card: Text) -> Text {
    "Put "@ + card + " on the stack."@
}

/// What is left of the mana and of the table after a row of spells.
#[verifier::ext_equal]
pub struct Cast {
    pub mana: int,
    pub step: Step,
}

/// The same spells with `first` logged before them.
pub open spec fn cast_logged(first: Seq<Text>, cast: Option<Cast>) -> Option<Cast> {
    match cast {
        Some(done) => Some(
            Cast {
                mana: done.mana,
                step: Step { table: done.step.table, log: first + done.step.log },
            },
        ),
        None => None,
    }
}

/// The table with the card at `i` taken from the active player's hand, face up.
pub open spec fn taken(table: Table, i: int) -> Table {
    Table {
        active: Player {
            hand: table.active.hand.remove(i),
            seen: table.active.seen.insert(table.active.hand[i]),
            ..table.active
        },
        ..table
    }
}

/// Casting spells from hand, one after the other, while `mana` pays for one.
pub open spec fn cast_from(mana: int, table: Table, db: Cards, yard: bool) -> Option<Cast>
    decreases table.active.hand.len(),
    via cast_from_decreases
{
    let hand = table.active.hand;
    let order = ranking(playable_keys(hand, db, mana));
    if order.len() == 0 {
        Some(Cast { mana, step: Step { table, log: Seq::empty() } })
    } else {
        let i = chosen_spell(hand, order, db, table.defending, yard);
        let item = Item { card: hand[i], profile: known(db, hand[i])->0 };
        match stack_resolved(seq![item], taken(table, i), db, yard) {
            None => None,
            Some(step) => cast_logged(
                seq![stack_line(item.card)] + step.log,
                cast_from(
                    mana_left(mana, item.card, item.profile, yard),
                    step.table,
                    db,
                    yard,
                ),
            ),
        }
    }
}

#[via_fn]
proof fn cast_from_decreases(mana: int, table: Table, db: Cards, yard: bool) {
    let hand = table.active.hand;
    let order = ranking(playable_keys(hand, db, mana));
    if order.len() > 0 {
        lemma_pick(mana, table, db, yard);
        let i = chosen_spell(hand, order, db, table.defending, yard);
        let item = Item { card: hand[i], profile: known(db, hand[i])->0 };
        lemma_stack_effect(seq![item], taken(table, i), db, yard);
    }
}

/// The card to cast is in hand, known and paid for.
pub proof fn lemma_pick(mana: int, table: Table, db: Cards, yard: bool)
    requires
        ranking(playable_keys(table.active.hand, db, mana)).len() > 0,
    ensures
        ({
            let hand = table.active.hand;
            let order = ranking(playable_keys(hand, db, mana));
            let i = chosen_spell(hand, order, db, table.defending, yard);
            &&& 0 <= i < hand.len()
            &&& known(db, hand[i]) is Some
            &&& known(db, hand[i])->0.cmc <= mana
        }),
{
    let hand = table.active.hand;
    let keys = playable_keys(hand, db, mana);
    let order = ranking(keys);
    lemma_ranking(keys);
    lemma_chosen_spell(hand, order, db, table.defending, yard);
    let i = chosen_spell(hand, order, db, table.defending, yard);
    let p = choose|p: int| 0 <= p < order.len() && order[p] == i;
    assert(keys[order[p]] is Some);
}

/// Casting spells with the mana of the active player's lands and pool; what is
/// left beyond the lands stays in the pool. `None` where mana or life leaves its
/// range.
pub open spec fn spells_cast(table: Table, db: Cards, yard: bool) -> Option<Step> {
    let mana = table.active.lands + table.active.pool;
    if !is_mana(mana) {
        None
    } else {
        match cast_from(mana, table, db, yard) {
            None => None,
            Some(cast) => {
                let after = cast.step.table;
                let pool = monus(cast.mana, after.active.lands);
                Some(
                    Step {
                        table: Table { active: Player { pool, ..after.active }, ..after },
                        log: cast.step.log,
                    },
                )
            },
        }
    }
}

/// The positions of a row of playable cards.
pub open spec fn playable_order(playable: Seq<(usize, u32)>) -> Seq<int> {
    playable.map_values(|entry: (usize, u32)| entry.0 as int)
}

/// The cards of a hand that `mana` pays for, with their mana values, the greatest
/// first.
pub fn playable_cards(hand: &Vec<DeckCard>, card_db: &CardDb, mana: u32) -> (playable: Vec<
    (usize, u32),
>)
    ensures
        playable_order(playable@) == ranking(
            playable_keys(card_names(hand@), card_db@, mana as int),
        ),
        forall|p: int|
            0 <= p < playable@.len() ==> {
                let (i, cmc) = #[trigger] playable@[p];
                &&& i < hand@.len()
                &&& known(card_db@, hand@[i as int]@) is Some
                &&& known(card_db@, hand@[i as int]@)->0.cmc == cmc
            },
{
    let ghost model = playable_keys(card_names(hand@), card_db@, mana as int);
    let mut keys: Vec<Option<i64>> = Vec::new();
    let mut i: usize = 0;
    while i < hand.len()
        invariant
            model == playable_keys(card_names(hand@), card_db@, mana as int),
            i <= hand@.len(),
            keys@.len() == i,
            forall|j: int| 0 <= j < i ==> #[trigger] widened(keys@)[j] == model[j],
        decreases hand@.len() - i,
    {
        let ghost held = keys@;
        let mut key: Option<i64> = None;
        if let Some(profile) = card_profile_for(&hand[i], card_db) {
            if profile.cmc <= mana {
                key = Some(profile.cmc as i64);
            }
        }
        keys.push(key);
        proof {
            assert(forall|j: int| 0 <= j < i ==> #[trigger] widened(keys@)[j] == widened(held)[j]);
            assert(widened(keys@)[i as int] == model[i as int]);
        }
        i += 1;
    }
    assert(widened(keys@) =~= model);
    let order = rank(&keys);
    let mut playable: Vec<(usize, u32)> = Vec::new();
    let mut p: usize = 0;
    while p < order.len()
        invariant
            model == playable_keys(card_names(hand@), card_db@, mana as int),
            widened(keys@) == model,
            keys@.len() == hand@.len(),
            is_ranking(positions(order@), model),
            p <= order@.len(),
            playable@.len() == p,
            forall|q: int|
                0 <= q < p ==> {
                    let (i, cmc) = #[trigger] playable@[q];
                    &&& i == order@[q]
                    &&& i < hand@.len()
                    &&& known(card_db@, hand@[i as int]@) is Some
                    &&& known(card_db@, hand@[i as int]@)->0.cmc == cmc
                },
        decreases order@.len() - p,
    {
        let at = order[p];
        assert(positions(order@)[p as int] == at);
        assert(model[at as int] is Some);
        assert(widened(keys@)[at as int] == model[at as int]);
        if let Some(value) = keys[at] {
            playable.push((at, value as u32));
        }
        p += 1;
    }
    assert(playable_order(playable@) =~= positions(order@));
    playable
}

/// The first of the ranked cards that ends the game.
fn find_lethal(
    hand: &Vec<DeckCard>,
    playable: &[(usize, u32)],
    card_db: &CardDb,
    life: i32,
) -> (found: Option<usize>)
    requires
        forall|p: int| 0 <= p < playable@.len() ==> (#[trigger] playable@[p]).0 < hand@.len(),
    ensures
        match found {
            Some(p) => is_first(
                lethal_flags(
                    card_names(hand@),
                    playable_order(playable@),
                    card_db@,
                    life as int,
                ),
                p as int,
            ),
            None => first_set(
                lethal_flags(
                    card_names(hand@),
                    playable_order(playable@),
                    card_db@,
                    life as int,
                ),
            ) is None,
        },
{
    let ghost flags = lethal_flags(
        card_names(hand@),
        playable_order(playable@),
        card_db@,
        life as int,
    );
    let mut p: usize = 0;
    while p < playable.len()
        invariant
            forall|p: int| 0 <= p < playable@.len() ==> (#[trigger] playable@[p]).0 < hand@.len(),
            flags == lethal_flags(
                card_names(hand@),
                playable_order(playable@),
                card_db@,
                life as int,
            ),
            p <= playable@.len(),
            forall|q: int| 0 <= q < p ==> !#[trigger] flags[q],
        decreases playable@.len() - p,
    {
        let i = playable[p].0;
        assert(playable@[p as int].0 < hand@.len());
        assert(flags[p as int] == is_lethal(card_db@, hand@[i as int]@, life as int));
        if let Some(profile) = card_profile_for(&hand[i], card_db) {
            if is_lethal_card(profile, life) {
                return Some(p);
            }
        }
        p += 1;
    }
    proof {
        lemma_first_unset(flags);
    }
    None
}

/// The first of the ranked cards that is Reanimate.
fn find_reanimate(hand: &Vec<DeckCard>, playable: &[(usize, u32)]) -> (found: Option<usize>)
    requires
        forall|p: int| 0 <= p < playable@.len() ==> (#[trigger] playable@[p]).0 < hand@.len(),
    ensures
        match found {
            Some(p) => is_first(
                reanimate_flags(card_names(hand@), playable_order(playable@)),
                p as int,
            ),
            None => first_set(
                reanimate_flags(card_names(hand@), playable_order(playable@)),
            ) is None,
        },
{
    let ghost flags = reanimate_flags(card_names(hand@), playable_order(playable@));
    let mut p: usize = 0;
    while p < playable.len()
        invariant
            forall|p: int| 0 <= p < playable@.len() ==> (#[trigger] playable@[p]).0 < hand@.len(),
            flags == reanimate_flags(card_names(hand@), playable_order(playable@)),
            p <= playable@.len(),
            forall|q: int| 0 <= q < p ==> !#[trigger] flags[q],
        decreases playable@.len() - p,
    {
        let i = playable[p].0;
        assert(playable@[p as int].0 < hand@.len());
        assert(flags[p as int] == (lowercase(hand@[i as int]@) == "reanimate"@));
        if same_text(normalize_name(hand[i].name.as_str()).as_str(), "reanimate") {
            return Some(p);
        }
        p += 1;
    }
    proof {
        lemma_first_unset(flags);
    }
    None
}

/// The card to cast in the yard format, of the ranked ones.
pub fn choose_best_yard_spell(
    active: &PlayerState,
    defending: &PlayerState,
    card_db: &CardDb,
    playable: &[(usize, u32)],
) -> (index: usize)
    requires
        playable@.len() > 0,
        forall|p: int|
            0 <= p < playable@.len() ==> (#[trigger] playable@[p]).0 < active.hand@.len(),
    ensures
        index == chosen_spell(
            active@.hand,
            playable_order(playable@),
            card_db@,
            defending@,
            true,
        ),
{
    let ghost order = playable_order(playable@);
    if let Some(p) = find_lethal(&active.hand, playable, card_db, defending.life) {
        proof {
            lemma_first_set(
                lethal_flags(active@.hand, order, card_db@, defending@.life),
                p as int,
            );
        }
        return playable[p].0;
    }
    if !defending.graveyard.is_empty() {
        if let Some(p) = find_reanimate(&active.hand, playable) {
            proof {
                lemma_first_set(reanimate_flags(active@.hand, order), p as int);
            }
            return playable[p].0;
        }
    }
    playable[0].0
}

/// Logging nothing before some spells changes nothing.
proof fn lemma_cast_logged_nothing(cast: Option<Cast>)
    ensures
        cast_logged(Seq::empty(), cast) == cast,
{
    if let Some(done) = cast {
        assert(Seq::<Text>::empty() + done.step.log =~= done.step.log);
    }
}

/// What is logged before some spells can be split anywhere.
proof fn lemma_cast_logged_twice(first: Seq<Text>, second: Seq<Text>, cast: Option<Cast>)
    ensures
        cast_logged(first, cast_logged(second, cast)) == cast_logged(first + second, cast),
{
    if let Some(done) = cast {
        assert(first + (second + done.step.log) =~= (first + second) + done.step.log);
    }
}

/// Outside the yard format the shared graveyard is left alone.
proof fn lemma_plain_stack_keeps_graveyard(stack: Seq<Item>, table: Table, db: Cards)
    ensures
        stack_resolved(stack, table, db, false) matches Some(step) ==> step.table.graveyard
            == table.graveyard,
    decreases table.defending.hand.len(), stack.len(),
{
    if stack.len() > 0 {
        lemma_responded(table.defending, table.active.life, db, false);
        match responded(table.defending, table.active.life, db, false) {
            None => {},
            Some((defending, Some(answer))) => {
                lemma_plain_stack_keeps_graveyard(
                    stack.push(answer),
                    Table { defending, ..table },
                    db,
                );
            },
            Some((_, None)) => {
                match resolved(table, stack.last(), false) {
                    None => {},
                    Some((after, _)) => {
                        lemma_plain_stack_keeps_graveyard(stack.drop_last(), after, db);
                    },
                }
            },
        }
    }
}

fn stack_action(card: &str) -> (action: String)
    ensures
        action@ == stack_line(card@),
{
    let mut action = "Put ".to_string();
    action.append(card);
    action.append(" on the stack.");
    action
}

/// Casts spells from the active player's hand, one after the other, while their mana
/// pays for one.
pub fn cast_spells(
    active: &mut PlayerState,
    defending: &mut PlayerState,
    card_db: &CardDb,
) -> (actions: Result<Vec<String>, OutOfRange>)
    ensures
        is_step(
            actions,
            Table {
                active: final(active)@,
                defending: final(defending)@,
                graveyard: Seq::empty(),
            },
            spells_cast(
                Table {
                    active: old(active)@,
                    defending: old(defending)@,
                    graveyard: Seq::empty(),
                },
                card_db@,
                false,
            ),
        ),
{
    let mut actions: Vec<String> = Vec::new();
    let mut no_graveyard: Vec<DeckCard> = Vec::new();
    assert(card_names(no_graveyard@) =~= Seq::<Text>::empty());
    let mut mana_available: u32 = match active.lands_in_play.checked_add(active.mana_pool) {
        Some(mana) => mana,
        None => {
            return Err(OutOfRange);
        },
    };
    let ghost whole = cast_from(
        mana_available as int,
        Table {
            active: active@,
            defending: defending@,
            graveyard: card_names(no_graveyard@),
        },
        card_db@,
        false,
    );
    proof {
        assert(texts(actions@) =~= Seq::<Text>::empty());
        lemma_cast_logged_nothing(whole);
    }
    loop
        invariant_except_break
            whole == cast_logged(
                texts(actions@),
                cast_from(
                    mana_available as int,
                    Table {
                        active: active@,
                        defending: defending@,
                        graveyard: card_names(no_graveyard@),
                    },
                    card_db@,
                    false,
                ),
            ),
        invariant
            card_names(no_graveyard@) == Seq::<Text>::empty(),
            old(active)@.lands + old(active)@.pool <= u32::MAX,
            whole == cast_from(
                old(active)@.lands + old(active)@.pool,
                Table {
                    active: old(active)@,
                    defending: old(defending)@,
                    graveyard: Seq::empty(),
                },
                card_db@,
                false,
            ),
        ensures
            whole == Some(
                Cast {
                    mana: mana_available as int,
                    step: Step {
                        table: Table {
                            active: active@,
                            defending: defending@,
                            graveyard: card_names(no_graveyard@),
                        },
                        log: texts(actions@),
                    },
                },
            ),
        decreases active.hand@.len(),
    {
        let ghost before = Table {
            active: active@,
            defending: defending@,
            graveyard: card_names(no_graveyard@),
        };
        let ghost log = texts(actions@);
        let playable = playable_cards(&active.hand, card_db, mana_available);
        if playable.is_empty() {
            assert(texts(actions@) + Seq::<Text>::empty() =~= texts(actions@));
            break;
        }
        proof {
            lemma_pick(mana_available as int, before, card_db@, false);
        }
        let cast_idx = match find_lethal(
            &active.hand,
            playable.as_slice(),
            card_db,
            defending.life,
        ) {
            Some(p) => {
                proof {
                    lemma_first_set(
                        lethal_flags(
                            active@.hand,
                            playable_order(playable@),
                            card_db@,
                            defending@.life,
                        ),
                        p as int,
                    );
                }
                playable[p].0
            },
            None => playable[0].0,
        };
        let card = active.hand.remove(cast_idx);
        assert(card@ == before.active.hand[cast_idx as int]);
        assert(active@.hand =~= before.active.hand.remove(cast_idx as int));
        let profile = match card_profile_for(&card, card_db) {
            Some(found) => found.clone(),
            None => {
                assert(false);
                return Err(OutOfRange);
            },
        };
        mana_available = mana_available.saturating_sub(profile.cmc);
        active.cards_seen.insert(card.name.as_str());
        let ghost item = Item { card: card@, profile: profile@ };
        let ghost line = stack_line(card@);
        actions.push(stack_action(card.name.as_str()));
        let mut stack: Vec<StackItem> = Vec::new();
        stack.push(StackItem { card, profile });
        proof {
            assert(items(stack@) =~= seq![item]);
            assert(taken(before, cast_idx as int) == Table {
                active: active@,
                defending: defending@,
                graveyard: card_names(no_graveyard@),
            });
            lemma_stack_effect(seq![item], taken(before, cast_idx as int), card_db@, false);
            lemma_plain_stack_keeps_graveyard(seq![item], taken(before, cast_idx as int), card_db@);
        }
        let mut effects = match resolve_stack(
            &mut stack,
            active,
            defending,
            card_db,
            false,
            &mut no_graveyard,
        ) {
            Ok(effects) => effects,
            Err(error) => {
                return Err(error);
            },
        };
        let ghost own = texts(effects@);
        let ghost opened = texts(actions@);
        proof {
            assert(opened =~= log + seq![line]);
            assert(active@.hand.len() == active.hand@.len());
        }
        append_all(&mut actions, &mut effects);
        proof {
            assert(log + (seq![line] + own) =~= texts(actions@));
            lemma_cast_logged_twice(
                log,
                seq![line] + own,
                cast_from(
                    mana_available as int,
                    Table {
                        active: active@,
                        defending: defending@,
                        graveyard: card_names(no_graveyard@),
                    },
                    card_db@,
                    false,
                ),
            );
        }
    }
    active.mana_pool = mana_available.saturating_sub(active.lands_in_play);
    Ok(actions)
}

/// Casts spells from the active player's hand in the yard format, one after the
/// other, while their mana pays for one.
pub fn cast_spells_yard(
    active: &mut PlayerState,
    defending: &mut PlayerState,
    card_db: &CardDb,
    shared_graveyard: &mut Vec<DeckCard>,
) -> (actions: Result<Vec<String>, OutOfRange>)
    ensures
        is_step(
            actions,
            Table {
                active: final(active)@,
                defending: final(defending)@,
                graveyard: card_names(final(shared_graveyard)@),
            },
            spells_cast(
                Table {
                    active: old(active)@,
                    defending: old(defending)@,
                    graveyard: card_names(old(shared_graveyard)@),
                },
                card_db@,
                true,
            ),
        ),
{
    let mut actions: Vec<String> = Vec::new();
    let mut mana_available: u32 = match active.lands_in_play.checked_add(active.mana_pool) {
        Some(mana) => mana,
        None => {
            return Err(OutOfRange);
        },
    };
    let ghost whole = cast_from(
        mana_available as int,
        Table {
            active: active@,
            defending: defending@,
            graveyard: card_names(shared_graveyard@),
        },
        card_db@,
        true,
    );
    proof {
        assert(texts(actions@) =~= Seq::<Text>::empty());
        lemma_cast_logged_nothing(whole);
    }
    loop
        invariant_except_break
            whole == cast_logged(
                texts(actions@),
                cast_from(
                    mana_available as int,
                    Table {
                        active: active@,
                        defending: defending@,
                        graveyard: card_names(shared_graveyard@),
                    },
                    card_db@,
                    true,
                ),
            ),
        invariant
            old(active)@.lands + old(active)@.pool <= u32::MAX,
            whole == cast_from(
                old(active)@.lands + old(active)@.pool,
                Table {
                    active: old(active)@,
                    defending: old(defending)@,
                    graveyard: card_names(old(shared_graveyard)@),
                },
                card_db@,
                true,
            ),
        ensures
            whole == Some(
                Cast {
                    mana: mana_available as int,
                    step: Step {
                        table: Table {
                            active: active@,
                            defending: defending@,
                            graveyard: card_names(shared_graveyard@),
                        },
                        log: texts(actions@),
                    },
                },
            ),
        decreases active.hand@.len(),
    {
        let ghost before = Table {
            active: active@,
            defending: defending@,
            graveyard: card_names(shared_graveyard@),
        };
        let ghost log = texts(actions@);
        let playable = playable_cards(&active.hand, card_db, mana_available);
        if playable.is_empty() {
            assert(texts(actions@) + Seq::<Text>::empty() =~= texts(actions@));
            break;
        }
        proof {
            lemma_pick(mana_available as int, before, card_db@, true);
        }
        let cast_idx = choose_best_yard_spell(active, defending, card_db, playable.as_slice());
        let card = active.hand.remove(cast_idx);
        assert(card@ == before.active.hand[cast_idx as int]);
        assert(active@.hand =~= before.active.hand.remove(cast_idx as int));
        let profile = match card_profile_for(&card, card_db) {
            Some(found) => found.clone(),
            None => {
                assert(false);
                return Err(OutOfRange);
            },
        };
        mana_available = mana_available.saturating_sub(
            effective_yard_cost(card.name.as_str(), profile.cmc),
        );
        if let CardKind::ManaRitual { mana } = profile.kind {
            mana_available = mana_available.saturating_add(mana);
        }
        active.cards_seen.insert(card.name.as_str());
        let ghost item = Item { card: card@, profile: profile@ };
        let ghost line = stack_line(card@);
        actions.push(stack_action(card.name.as_str()));
        let mut stack: Vec<StackItem> = Vec::new();
        stack.push(StackItem { card, profile });
        proof {
            assert(items(stack@) =~= seq![item]);
            assert(taken(before, cast_idx as int) == Table {
                active: active@,
                defending: defending@,
                graveyard: card_names(shared_graveyard@),
            });
            lemma_stack_effect(seq![item], taken(before, cast_idx as int), card_db@, true);
        }
        let mut effects = match resolve_stack(
            &mut stack,
            active,
            defending,
            card_db,
            true,
            shared_graveyard,
        ) {
            Ok(effects) => effects,
            Err(error) => {
                return Err(error);
            },
        };
        let ghost own = texts(effects@);
        let ghost opened = texts(actions@);
        proof {
            assert(opened =~= log + seq![line]);
            assert(active@.hand.len() == active.hand@.len());
        }
        append_all(&mut actions, &mut effects);
        proof {
            assert(log + (seq![line] + own) =~= texts(actions@));
            lemma_cast_logged_twice(
                log,
                seq![line] + own,
                cast_from(
                    mana_available as int,
                    Table {
                        active: active@,
                        defending: defending@,
                        graveyard: card_names(shared_graveyard@),
                    },
                    card_db@,
                    true,
                ),
            );
        }
    }
    active.mana_pool = mana_available.saturating_sub(active.lands_in_play);
    Ok(actions)
}

} // verus!
