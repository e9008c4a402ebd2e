//! The yard format: free cards, sacrifices for mana, and Reanimate.

use crate::cards::{
    card_names, card_profile_for, known, normalize_name, CardDb, CardKind, Cards, DeckCard,
};
use crate::players::{
    buried, creatures, draw_card_from_shared, drawn_from, is_life, is_mana, put_in_yard_graveyard,
    Creature, CreaturePermanent, OutOfRange, Player, PlayerState, Step, Table,
};
use crate::ranking::{
    find_last_greatest, first_set, is_first, last_greatest, lemma_first_exists, lemma_first_set,
    lemma_first_unset, lemma_last_greatest, widened,
};
use crate::seen::texts;
use crate::spells::enter_battlefield;
use crate::text::{
    append_decimal, append_signed, decimal, lowercase, same_text, signed_decimal, Text,
};
use vstd::prelude::*;

verus! {

/// Which cards are called `key` in lower case.
pub open spec fn named_flags(cards: Seq<Text>, key: Text) -> Seq<bool> {
    cards.map_values(|name: Text| lowercase(name) == key)
}

/// The first card of a row that is called `key` in lower case.
fn find_named(cards: &Vec<DeckCard>, key: &str) -> (found: Option<usize>)
    ensures
        match found {
            Some(i) => is_first(named_flags(card_names(cards@), key@), i as int),
            None => first_set(named_flags(card_names(cards@), key@)) is None,
        },
{
    let ghost flags = named_flags(card_names(cards@), key@);
    let mut i: usize = 0;
    while i < cards.len()
        invariant
            flags == named_flags(card_names(cards@), key@),
            i <= cards@.len(),
            forall|j: int| 0 <= j < i ==> !#[trigger] flags[j],
        decreases cards@.len() - i,
    {
        assert(flags[i as int] == (lowercase(cards@[i as int]@) == key@));
        if same_text(normalize_name(cards[i].name.as_str()).as_str(), key) {
            return Some(i);
        }
        i += 1;
    }
    proof {
        lemma_first_unset(flags);
    }
    None
}

// ---------------------------------------------------------------------------
// Street Wraith
// ---------------------------------------------------------------------------

/// The log line of a cycled Street Wraith.
pub open spec fn cycle_line(player: Text, life: int) -> Text {
    "Cycled Street Wraith by paying 2 life ("@ + player + " life now "@ + signed_decimal(life)
        + ")."@
}

/// A player, the shared graveyard and the shared library, and what was logged.
#[verifier::ext_equal]
pub struct Cycling {
    pub player: Player,
    pub graveyard: Seq<Text>,
    pub library: Seq<Text>,
    pub log: Seq<Text>,
}

/// Cycling every Street Wraith in hand while the player has more than 2 life: each
/// costs 2 life and draws a card.
pub open spec fn cycled(player: Player, graveyard: Seq<Text>, library: Seq<Text>) -> Cycling
    decreases player.hand.len() + library.len(),
    via cycled_decreases
{
    match first_set(named_flags(player.hand, "street wraith"@)) {
        None => Cycling { player, graveyard, library, log: Seq::empty() },
        Some(i) => if player.life <= 2 {
            Cycling { player, graveyard, library, log: Seq::empty() }
        } else {
            let life = player.life - 2;
            let paid = Player { hand: player.hand.remove(i), life, ..player };
            let (owner, pile) = buried(paid, graveyard, player.hand[i], true);
            let (after, stock, line) = drawn_from(owner, library);
            let rest = cycled(after, pile, stock);
            Cycling { log: seq![cycle_line(player.name, life), line] + rest.log, ..rest }
        },
    }
}

#[via_fn]
proof fn cycled_decreases(player: Player, graveyard: Seq<Text>, library: Seq<Text>) {
    lemma_first_exists(named_flags(player.hand, "street wraith"@));
}

fn cycle_action(player: &str, life: i32) -> (action: String)
    ensures
        action@ == cycle_line(player@, life as int),
{
    let mut action = "Cycled Street Wraith by paying 2 life (".to_string();
    action.append(player);
    action.append(" life now ");
    append_signed(&mut action, life);
    action.append(").");
    action
}

/// Cycles every Street Wraith in hand while the player has more than 2 life.
fn cycle_wraiths(
    active: &mut PlayerState,
    shared_library: &mut Vec<DeckCard>,
    shared_graveyard: &mut Vec<DeckCard>,
) -> (actions: Vec<String>)
    ensures
        ({
            let done = cycled(
                old(active)@,
                card_names(old(shared_graveyard)@),
                card_names(old(shared_library)@),
            );
            &&& final(active)@ == done.player
            &&& card_names(final(shared_graveyard)@) == done.graveyard
            &&& card_names(final(shared_library)@) == done.library
            &&& texts(actions@) == done.log
        }),
{
    let mut actions: Vec<String> = Vec::new();
    let ghost whole = cycled(active@, card_names(shared_graveyard@), card_names(shared_library@));
    assert(texts(actions@) =~= Seq::<Text>::empty());
    assert(Seq::<Text>::empty() + whole.log =~= whole.log);
    loop
        invariant_except_break
            ({
                let rest = cycled(
                    active@,
                    card_names(shared_graveyard@),
                    card_names(shared_library@),
                );
                whole == (Cycling { log: texts(actions@) + rest.log, ..rest })
            }),
        invariant
            whole == cycled(
                old(active)@,
                card_names(old(shared_graveyard)@),
                card_names(old(shared_library)@),
            ),
        ensures
            whole == (Cycling {
                player: active@,
                graveyard: card_names(shared_graveyard@),
                library: card_names(shared_library@),
                log: texts(actions@),
            }),
        decreases active.hand@.len() + shared_library@.len(),
    {
        let ghost before = active@;
        let ghost pile = card_names(shared_graveyard@);
        let ghost stock = card_names(shared_library@);
        let ghost log = texts(actions@);
        let idx = match find_named(&active.hand, "street wraith") {
            Some(i) => i,
            None => {
                assert(log + Seq::<Text>::empty() =~= log);
                break;
            },
        };
        proof {
            lemma_first_set(named_flags(before.hand, "street wraith"@), idx as int);
        }
        if active.life <= 2 {
            assert(log + Seq::<Text>::empty() =~= log);
            break;
        }
        let wraith = active.hand.remove(idx);
        active.life = active.life - 2;
        let ghost name = wraith@;
        let ghost paid = Player {
            hand: before.hand.remove(idx as int),
            life: before.life - 2,
            ..before
        };
        proof {
            assert(name == before.hand[idx as int]);
            assert(active@.hand =~= paid.hand);
            assert(active@ =~= paid);
        }
        put_in_yard_graveyard(active, wraith, shared_graveyard);
        let ghost owner = active@;
        actions.push(cycle_action(active.name.as_str(), active.life));
        let draw = draw_card_from_shared(active, shared_library);
        let ghost line = draw@;
        actions.push(draw);
        proof {
            let rest = cycled(
                active@,
                card_names(shared_graveyard@),
                card_names(shared_library@),
            );
            let own = seq![cycle_line(before.name, before.life - 2), line];
            assert(texts(actions@) =~= log + own);
            assert(log + (own + rest.log) =~= texts(actions@) + rest.log);
            assert(active@.hand.len() == active.hand@.len());
            assert(card_names(shared_library@).len() == shared_library@.len());
            assert(owner.hand.len() == before.hand.len() - 1);
            assert(stock.len() > 0 ==> active@.hand.len() == owner.hand.len() + 1);
        }
    }
    actions
}

// ---------------------------------------------------------------------------
// Reanimate
// ---------------------------------------------------------------------------

/// The power of the creature cards of a graveyard.
pub open spec fn target_keys(graveyard: Seq<Text>, db: Cards) -> Seq<Option<int>> {
    graveyard.map_values(
        |name: Text|
            match known(db, name) {
                Some(profile) => match profile.kind {
                    CardKind::Creature { power, toughness } => Some(power as int),
                    _ => None,
                },
                None => None,
            },
    )
}

/// The log line of Reanimate.
pub open spec fn reanimate_line(target: Text, cmc: nat, life: int) -> Text {
    "Cast Reanimate targeting "@ + target + " (lost "@ + decimal(cmc) + " life, "@
        + signed_decimal(life) + " life now)."@
}

/// Casting Reanimate from hand on the creature card of greatest power in the
/// defending player's graveyard, the last of several. The creature comes into play
/// under the active player, who pays its mana value, as an `i32`, in life; the
/// card itself is laid aside. `None` where life leaves its range.
pub open spec fn reanimated(table: Table, db: Cards) -> Option<Step> {
    let still = Step { table, log: Seq::empty() };
    match (
        first_set(named_flags(table.active.hand, "reanimate"@)),
        last_greatest(target_keys(table.defending.graveyard, db)),
    ) {
        (Some(i), Some(k)) => {
            let card = table.defending.graveyard[k];
            let profile = known(db, card)->0;
            let life = table.active.life - (profile.cmc as i32);
            if !is_life(life) {
                None
            } else {
                let creature = Creature {
                    name: profile.name,
                    power: profile.kind->Creature_power as int,
                    toughness: profile.kind->Creature_toughness as int,
                    sick: true,
                };
                let caster = Player {
                    hand: table.active.hand.remove(i),
                    life,
                    battlefield: table.active.battlefield.push(creature),
                    ..table.active
                };
                let loser = Player {
                    graveyard: table.defending.graveyard.remove(k),
                    ..table.defending
                };
                let (active, pile) = buried(caster, table.graveyard, "Reanimate"@, true);
                let (defending, graveyard) = buried(loser, pile, card, true);
                Some(
                    Step {
                        table: Table { active, defending, graveyard },
                        log: seq![reanimate_line(profile.name, profile.cmc as nat, life)],
                    },
                )
            }
        },
        _ => Some(still),
    }
}

/// The creature card of greatest power in a graveyard, the last of several.
fn find_target(graveyard: &Vec<DeckCard>, card_db: &CardDb) -> (found: Option<usize>)
    ensures
        match found {
            Some(k) => {
                &&& k < graveyard@.len()
                &&& last_greatest(target_keys(card_names(graveyard@), card_db@)) == Some(k as int)
                &&& known(card_db@, graveyard@[k as int]@) is Some
                &&& known(card_db@, graveyard@[k as int]@)->0.kind is Creature
            },
            None => last_greatest(target_keys(card_names(graveyard@), card_db@)) is None,
        },
{
    let ghost model = target_keys(card_names(graveyard@), card_db@);
    let mut keys: Vec<Option<i64>> = Vec::new();
    let mut i: usize = 0;
    while i < graveyard.len()
        invariant
            model == target_keys(card_names(graveyard@), card_db@),
            i <= graveyard@.len(),
            keys@.len() == i,
            forall|j: int| 0 <= j < i ==> #[trigger] widened(keys@)[j] == model[j],
        decreases graveyard@.len() - i,
    {
        let ghost held = keys@;
        let mut key: Option<i64> = None;
        if let Some(profile) = card_profile_for(&graveyard[i], card_db) {
            if let CardKind::Creature { power, toughness } = profile.kind {
                key = Some(power as i64);
            }
        }
        keys.push(key);
        proof {
            assert(forall|j: int| 0 <= j < i ==> #[trigger] widened(keys@)[j] == widened(held)[j]);
            assert(widened(keys@)[i as int] == model[i as int]);
        }
        i += 1;
    }
    assert(widened(keys@) =~= model);
    proof {
        lemma_last_greatest(model);
    }
    find_last_greatest(&keys)
}

fn reanimate_action(target: &str, cmc: u32, life: i32) -> (action: String)
    ensures
        action@ == reanimate_line(target@, cmc as nat, life as int),
{
    let mut action = "Cast Reanimate targeting ".to_string();
    action.append(target);
    action.append(" (lost ");
    append_decimal(&mut action, cmc as u64);
    action.append(" life, ");
    append_signed(&mut action, life);
    action.append(" life now).");
    action
}

/// Casts Reanimate from hand, if the defending player's graveyard holds a
/// creature card.
fn cast_reanimate(
    active: &mut PlayerState,
    defending: &mut PlayerState,
    card_db: &CardDb,
    shared_graveyard: &mut Vec<DeckCard>,
) -> (action: Result<Option<String>, OutOfRange>)
    ensures
        match reanimated(
            Table {
                active: old(active)@,
                defending: old(defending)@,
                graveyard: card_names(old(shared_graveyard)@),
            },
            card_db@,
        ) {
            None => action is Err,
            Some(step) => {
                &&& action is Ok
                &&& step.table == (Table {
                    active: final(active)@,
                    defending: final(defending)@,
                    graveyard: card_names(final(shared_graveyard)@),
                })
                &&& step.log == match action->Ok_0 {
                    Some(line) => seq![line@],
                    None => Seq::empty(),
                }
            },
        },
{
    let idx = match find_named(&active.hand, "reanimate") {
        Some(i) => i,
        None => {
            return Ok(None);
        },
    };
    proof {
        lemma_first_set(named_flags(active@.hand, "reanimate"@), idx as int);
    }
    let target_idx = match find_target(&defending.graveyard, card_db) {
        Some(k) => k,
        None => {
            return Ok(None);
        },
    };
    if let Some(profile) = card_profile_for(&defending.graveyard[target_idx], card_db) {
        if let CardKind::Creature { power, toughness } = profile.kind {
            let _ = active.hand.remove(idx);
            assert(active@.hand =~= old(active)@.hand.remove(idx as int));
            let resurrected = defending.graveyard.remove(target_idx);
            assert(defending@.graveyard =~= old(defending)@.graveyard.remove(target_idx as int));
            match active.life.checked_sub(profile.cmc as i32) {
                Some(life) => {
                    active.life = life;
                },
                None => {
                    return Err(OutOfRange);
                },
            }
            enter_battlefield(active, profile.name.as_str(), power, toughness);
            put_in_yard_graveyard(
                active,
                DeckCard { name: "Reanimate".to_string() },
                shared_graveyard,
            );
            let action = reanimate_action(profile.name.as_str(), profile.cmc, active.life);
            put_in_yard_graveyard(defending, resurrected, shared_graveyard);
            return Ok(Some(action));
        }
    }
    assert(false);
    Ok(None)
}

/// What is done before other spells in the yard format: the table, the shared
/// library and the log.
pub open spec fn priority_cast(table: Table, library: Seq<Text>, db: Cards) -> Option<
    (Step, Seq<Text>),
> {
    let wraiths = cycled(table.active, table.graveyard, library);
    match reanimated(
        Table { active: wraiths.player, graveyard: wraiths.graveyard, ..table },
        db,
    ) {
        None => None,
        Some(step) => Some(
            (Step { table: step.table, log: wraiths.log + step.log }, wraiths.library),
        ),
    }
}

/// Cycles every Street Wraith, then casts Reanimate.
pub fn cast_priority_spells_yard(
    active: &mut PlayerState,
    defending: &mut PlayerState,
    card_db: &CardDb,
    shared_library: &mut Vec<DeckCard>,
    shared_graveyard: &mut Vec<DeckCard>,
) -> (actions: Result<Vec<String>, OutOfRange>)
    ensures
        match priority_cast(
            Table {
                active: old(active)@,
                defending: old(defending)@,
                graveyard: card_names(old(shared_graveyard)@),
            },
            card_names(old(shared_library)@),
            card_db@,
        ) {
            None => actions is Err,
            Some((step, library)) => {
                &&& actions is Ok
                &&& texts(actions->Ok_0@) == step.log
                &&& step.table == (Table {
                    active: final(active)@,
                    defending: final(defending)@,
                    graveyard: card_names(final(shared_graveyard)@),
                })
                &&& card_names(final(shared_library)@) == library
            },
        },
{
    let mut actions = cycle_wraiths(active, shared_library, shared_graveyard);
    let ghost log = texts(actions@);
    match cast_reanimate(active, defending, card_db, shared_graveyard) {
        Ok(Some(action)) => {
            actions.push(action);
            assert(texts(actions@) =~= log + seq![action@]);
            Ok(actions)
        },
        Ok(None) => {
            assert(texts(actions@) =~= log + Seq::<Text>::empty());
            Ok(actions)
        },
        Err(error) => Err(error),
    }
}

// ---------------------------------------------------------------------------
// Blood Pet
// ---------------------------------------------------------------------------

/// Which creatures are Blood Pets.
pub open spec fn pet_flags(battlefield: Seq<Creature>) -> Seq<bool> {
    battlefield.map_values(|creature: Creature| lowercase(creature.name) == "blood pet"@)
}

/// Whether a hand holds a known card.
pub open spec fn holds_known(hand: Seq<Text>, db: Cards) -> bool {
    exists|k: int| 0 <= k < hand.len() && known(db, #[trigger] hand[k]) is Some
}

/// Whether a hand holds a known card that costs more than `mana`.
pub open spec fn wants_mana(hand: Seq<Text>, db: Cards, mana: int) -> bool {
    exists|k: int|
        0 <= k < hand.len() && known(db, #[trigger] hand[k]) is Some && known(
            db,
            hand[k],
        )->0.cmc > mana
}

/// The log line of a sacrificed Blood Pet.
pub open spec fn pet_line(pool: nat) -> Text {
    "Activated Blood Pet: sacrificed for {B} (pool "@ + decimal(pool) + ")."@
}

/// Sacrificing Blood Pets for mana, one after the other, while the hand holds a
/// card that the mana does not pay for: the player, the shared graveyard and the
/// log. `None` where the mana leaves its range.
pub open spec fn mana_activated(player: Player, graveyard: Seq<Text>, db: Cards) -> Option<
    (Player, Seq<Text>, Seq<Text>),
>
    decreases player.battlefield.len(),
    via mana_activated_decreases
{
    let mana = player.lands + player.pool;
    match first_set(pet_flags(player.battlefield)) {
        None => Some((player, graveyard, Seq::empty())),
        Some(i) => if holds_known(player.hand, db) && !is_mana(mana) {
            None
        } else if !wants_mana(player.hand, db, mana) {
            Some((player, graveyard, Seq::empty()))
        } else {
            let pool = player.pool + 1;
            match mana_activated(
                Player { battlefield: player.battlefield.remove(i), pool, ..player },
                graveyard.push(player.battlefield[i].name),
                db,
            ) {
                None => None,
                Some((after, pile, log)) => Some((after, pile, seq![pet_line(pool as nat)] + log)),
            }
        },
    }
}

#[via_fn]
proof fn mana_activated_decreases(player: Player, graveyard: Seq<Text>, db: Cards) {
    lemma_first_exists(pet_flags(player.battlefield));
}

/// The first Blood Pet of a battlefield.
fn find_pet(battlefield: &Vec<CreaturePermanent>) -> (found: Option<usize>)
    ensures
        match found {
            Some(i) => is_first(pet_flags(creatures(battlefield@)), i as int),
            None => first_set(pet_flags(creatures(battlefield@))) is None,
        },
{
    let ghost flags = pet_flags(creatures(battlefield@));
    let mut i: usize = 0;
    while i < battlefield.len()
        invariant
            flags == pet_flags(creatures(battlefield@)),
            i <= battlefield@.len(),
            forall|j: int| 0 <= j < i ==> !#[trigger] flags[j],
        decreases battlefield@.len() - i,
    {
        assert(flags[i as int] == (lowercase(battlefield@[i as int]@.name) == "blood pet"@));
        if same_text(normalize_name(battlefield[i].card_name.as_str()).as_str(), "blood pet") {
            return Some(i);
        }
        i += 1;
    }
    proof {
        lemma_first_unset(flags);
    }
    None
}

/// Whether the player's hand holds a card that their mana does not pay for.
fn needs_mana(player: &PlayerState, card_db: &CardDb) -> (needs: Result<bool, OutOfRange>)
    ensures
        ({
            let mana = player@.lands + player@.pool;
            if holds_known(player@.hand, card_db@) && !is_mana(mana) {
                needs is Err
            } else {
                needs == Ok::<bool, OutOfRange>(wants_mana(player@.hand, card_db@, mana))
            }
        }),
{
    let ghost hand = player@.hand;
    let ghost mana = player@.lands + player@.pool;
    let mut k: usize = 0;
    while k < player.hand.len()
        invariant
            hand == player@.hand,
            mana == player@.lands + player@.pool,
            k <= player.hand@.len(),
            forall|j: int|
                0 <= j < k && known(card_db@, #[trigger] hand[j]) is Some ==> is_mana(mana)
                    && known(card_db@, hand[j])->0.cmc <= mana,
        decreases player.hand@.len() - k,
    {
        assert(hand[k as int] == player.hand@[k as int]@);
        if let Some(profile) = card_profile_for(&player.hand[k], card_db) {
            match player.lands_in_play.checked_add(player.mana_pool) {
                None => {
                    return Err(OutOfRange);
                },
                Some(available) => {
                    if profile.cmc > available {
                        return Ok(true);
                    }
                },
            }
        }
        k += 1;
    }
    Ok(false)
}

fn pet_action(pool: u32) -> (action: String)
    ensures
        action@ == pet_line(pool as nat),
{
    let mut action = "Activated Blood Pet: sacrificed for {B} (pool ".to_string();
    append_decimal(&mut action, pool as u64);
    action.append(").");
    action
}

/// The rest of the sacrifices with `first` logged before them.
spec fn pets_logged(
    first: Seq<Text>,
    rest: Option<(Player, Seq<Text>, Seq<Text>)>,
) -> Option<(Player, Seq<Text>, Seq<Text>)> {
    match rest {
        None => None,
        Some((player, pile, log)) => Some((player, pile, first + log)),
    }
}

/// Sacrifices Blood Pets for mana while the hand holds a card that the mana does
/// not pay for.
pub fn activate_mana_abilities_yard(
    active: &mut PlayerState,
    card_db: &CardDb,
    shared_graveyard: &mut Vec<DeckCard>,
) -> (actions: Result<Vec<String>, OutOfRange>)
    ensures
        match mana_activated(old(active)@, card_names(old(shared_graveyard)@), card_db@) {
            None => actions is Err,
            Some((player, pile, log)) => {
                &&& actions is Ok
                &&& texts(actions->Ok_0@) == log
                &&& final(active)@ == player
                &&& card_names(final(shared_graveyard)@) == pile
            },
        },
{
    let mut actions: Vec<String> = Vec::new();
    let ghost whole = mana_activated(active@, card_names(shared_graveyard@), card_db@);
    proof {
        assert(texts(actions@) =~= Seq::<Text>::empty());
        if let Some((_, _, log)) = whole {
            assert(Seq::<Text>::empty() + log =~= log);
        }
    }
    loop
        invariant_except_break
            whole == pets_logged(
                texts(actions@),
                mana_activated(active@, card_names(shared_graveyard@), card_db@),
            ),
        invariant
            whole == mana_activated(old(active)@, card_names(old(shared_graveyard)@), card_db@),
        ensures
            whole == Some((active@, card_names(shared_graveyard@), texts(actions@))),
        decreases active.battlefield@.len(),
    {
        let ghost before = active@;
        let ghost pile = card_names(shared_graveyard@);
        let ghost log = texts(actions@);
        assert(log + Seq::<Text>::empty() =~= log);
        let idx = match find_pet(&active.battlefield) {
            Some(i) => i,
            None => {
                break;
            },
        };
        proof {
            lemma_first_set(pet_flags(before.battlefield), idx as int);
        }
        match needs_mana(active, card_db) {
            Err(error) => {
                return Err(error);
            },
            Ok(needs) => {
                if !needs {
                    break;
                }
            },
        }
        let pet = active.battlefield.remove(idx);
        let ghost name = pet@.name;
        active.mana_pool = active.mana_pool + 1;
        shared_graveyard.push(DeckCard { name: pet.card_name });
        actions.push(pet_action(active.mana_pool));
        proof {
            assert(pet@ == before.battlefield[idx as int]);
            assert(active@.battlefield =~= before.battlefield.remove(idx as int));
            assert(card_names(shared_graveyard@) =~= pile.push(name));
            let line = pet_line((before.pool + 1) as nat);
            assert(texts(actions@) =~= log + seq![line]);
            if let Some((_, _, rest)) = mana_activated(
                active@,
                card_names(shared_graveyard@),
                card_db@,
            ) {
                assert(log + (seq![line] + rest) =~= texts(actions@) + rest);
            }
        }
    }
    Ok(actions)
}

} // verus!
